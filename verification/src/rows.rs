//! Decisions and acceptor states as rows of a database.
//!
//! A proposal number takes three columns, which are all empty or all filled. A
//! row that breaks this, or whose value cannot be read, is skipped.
use crate::config::{NodeId, NodeName};
use crate::message::{Ballot, ProposalNumber};
use crate::storage::AcceptorState;
use crate::value::opt;
use vstd::prelude::*;

verus! {

/// The columns of a proposal number.
#[derive(Debug)]
pub struct ProposalNumberColumns {
    pub round: Option<u64>,
    pub node_name: Option<String>,
    pub node_incarnation: Option<u64>,
}

/// A value column: empty, filled with something that is no value, or filled
/// with a value.
#[derive(Debug)]
pub enum StoredValue<V> {
    Missing,
    Bad,
    Good(V),
}

/// The row of an acceptor state.
#[derive(Debug)]
pub struct AcceptorRow<V> {
    pub slot: u64,
    pub highest_promised: ProposalNumberColumns,
    pub accepted: ProposalNumberColumns,
    pub accepted_value: StoredValue<V>,
}

impl ProposalNumberColumns {
    /// Whether no column is filled.
    pub open spec fn is_empty(self) -> bool {
        self.round is None && self.node_name is None && self.node_incarnation is None
    }

    /// Whether every column is filled.
    pub open spec fn is_full(self) -> bool {
        self.round is Some && self.node_name is Some && self.node_incarnation is Some
    }

    /// The number that the columns hold, if they are all filled.
    pub open spec fn number(self) -> Option<Ballot> {
        if self.is_full() {
            Some(
                (
                    self.round->0,
                    NodeName {
                        name: (self.node_name->0)@,
                        incarnation: self.node_incarnation->0,
                    },
                ),
            )
        } else {
            None
        }
    }

    /// Columns that hold nothing.
    pub fn empty() -> (columns: Self)
        ensures
            columns.is_empty(),
    {
        ProposalNumberColumns { round: None, node_name: None, node_incarnation: None }
    }

    /// The columns of a proposal number.
    pub fn from_proposal_number(proposal_number: ProposalNumber) -> (columns: Self)
        ensures
            columns.is_full(),
            columns.number() == Some(proposal_number@),
    {
        let (round, node_id) = proposal_number;
        ProposalNumberColumns {
            round: Some(round),
            node_name: Some(node_id.name().to_owned()),
            node_incarnation: Some(node_id.incarnation()),
        }
    }

    /// The number that the columns hold: `Some(None)` where they are all empty,
    /// and `None` where some are filled and others not.
    pub fn into_proposal_number(self) -> (number: Option<Option<ProposalNumber>>)
        ensures
            number is None <==> !self.is_empty() && !self.is_full(),
            number matches Some(n) ==> opt(n) == self.number(),
    {
        match (self.round, self.node_name, self.node_incarnation) {
            (None, None, None) => Some(None),
            (Some(round), Some(node_name), Some(node_incarnation)) => Some(
                Some((round, NodeId::new(node_name.as_str(), node_incarnation))),
            ),
            _ => None,
        }
    }
}

/// The columns of an optional proposal number.
pub fn split_proposal_number(proposal_number: Option<ProposalNumber>) -> (columns:
    ProposalNumberColumns)
    ensures
        columns.is_empty() || columns.is_full(),
        columns.number() == opt(proposal_number),
{
    match proposal_number {
        Some(n) => ProposalNumberColumns::from_proposal_number(n),
        None => ProposalNumberColumns::empty(),
    }
}

/// Whether the columns of an accepted proposal hold one, or are all empty.
pub open spec fn accepted_readable<V>(
    columns: ProposalNumberColumns,
    value: StoredValue<V>,
) -> bool {
    (columns.is_empty() && value is Missing) || (columns.is_full() && value is Good)
}

/// The accepted proposal that columns hold.
pub open spec fn accepted_of<V: View>(columns: ProposalNumberColumns, value: StoredValue<V>) -> Option<
    (Ballot, V::V),
> {
    match (columns.number(), value) {
        (Some(n), StoredValue::Good(v)) => Some((n, v@)),
        _ => None,
    }
}

/// The columns of an optional accepted proposal.
pub fn split_accepted<V: View>(accepted: Option<(ProposalNumber, V)>) -> (columns: (
    ProposalNumberColumns,
    StoredValue<V>,
))
    ensures
        accepted_readable(columns.0, columns.1),
        accepted_of(columns.0, columns.1) == opt(accepted),
{
    match accepted {
        Some((proposal_number, value)) => (
            ProposalNumberColumns::from_proposal_number(proposal_number),
            StoredValue::Good(value),
        ),
        None => (ProposalNumberColumns::empty(), StoredValue::Missing),
    }
}

/// The accepted proposal that columns hold: `Some(None)` where they are all
/// empty, and `None` where they are incomplete or the value cannot be read.
pub fn restore_accepted<V: View>(columns: ProposalNumberColumns, value: StoredValue<V>) -> (accepted:
    Option<Option<(ProposalNumber, V)>>)
    ensures
        accepted is Some <==> accepted_readable(columns, value),
        accepted matches Some(a) ==> opt(a) == accepted_of(columns, value),
{
    match (columns.into_proposal_number(), value) {
        (Some(None), StoredValue::Missing) => Some(None),
        (Some(Some(n)), StoredValue::Good(v)) => Some(Some((n, v))),
        _ => None,
    }
}

impl<V: View> AcceptorRow<V> {
    /// Whether the row holds an acceptor state.
    pub open spec fn readable(self) -> bool {
        (self.highest_promised.is_empty() || self.highest_promised.is_full())
            && accepted_readable(self.accepted, self.accepted_value)
    }

    /// Whether `state` is the acceptor state that the row holds.
    pub open spec fn holds(self, state: AcceptorState<V>) -> bool {
        &&& state.slot == self.slot
        &&& opt(state.highest_promised) == self.highest_promised.number()
        &&& opt(state.accepted) == accepted_of(self.accepted, self.accepted_value)
    }
}

/// The row of an acceptor state.
pub fn split_state<V: View>(state: AcceptorState<V>) -> (row: AcceptorRow<V>)
    ensures
        row.readable(),
        row.holds(state),
{
    let (accepted, accepted_value) = split_accepted(state.accepted);
    AcceptorRow {
        slot: state.slot,
        highest_promised: split_proposal_number(state.highest_promised),
        accepted,
        accepted_value,
    }
}

/// The acceptor state that a row holds, if it holds one.
pub fn restore_state<V: View>(row: AcceptorRow<V>) -> (state: Option<AcceptorState<V>>)
    ensures
        state is Some <==> row.readable(),
        state matches Some(s) ==> row.holds(s),
{
    let slot: u64 = row.slot;
    match (
        row.highest_promised.into_proposal_number(),
        restore_accepted(row.accepted, row.accepted_value),
    ) {
        (Some(highest_promised), Some(accepted)) => Some(
            AcceptorState { slot, highest_promised, accepted },
        ),
        _ => None,
    }
}

/// The rows that hold an acceptor state, in order.
pub open spec fn readable_rows<V: View>(rows: Seq<AcceptorRow<V>>) -> Seq<AcceptorRow<V>>
    decreases rows.len(),
{
    if rows.len() == 0 {
        Seq::empty()
    } else if rows.last().readable() {
        readable_rows(rows.drop_last()).push(rows.last())
    } else {
        readable_rows(rows.drop_last())
    }
}

/// Whether a list of states is what a list of rows holds, one for one.
pub open spec fn hold_all<V: View>(rows: Seq<AcceptorRow<V>>, states: Seq<AcceptorState<V>>) -> bool {
    &&& rows.len() == states.len()
    &&& forall|i: int| 0 <= i < rows.len() ==> (#[trigger] rows[i]).holds(states[i])
}

/// The acceptor states that rows hold; rows that hold none are skipped.
pub fn restore_states<V: View>(rows: Vec<AcceptorRow<V>>) -> (states: Vec<AcceptorState<V>>)
    ensures
        hold_all(readable_rows(rows@), states@),
{
    let mut states: Vec<AcceptorState<V>> = Vec::new();
    let ghost all = rows@;
    for row in iter: rows
        invariant
            iter.seq() == all,
            hold_all(readable_rows(all.take(iter.index() as int)), states@),
    {
        proof {
            let more = all.take(iter.index() + 1);
            assert(more.drop_last() =~= all.take(iter.index() as int));
            assert(more.last() == row);
        }
        if let Some(state) = restore_state(row) {
            states.push(state);
        }
    }
    assert(all.take(all.len() as int) =~= all);
    states
}

/// The decisions that can be read, in order.
pub open spec fn readable_decisions<V: View>(rows: Seq<(u64, StoredValue<V>)>) -> Seq<(u64, V::V)>
    decreases rows.len(),
{
    if rows.len() == 0 {
        Seq::empty()
    } else {
        let before = readable_decisions(rows.drop_last());
        match rows.last().1 {
            StoredValue::Good(v) => before.push((rows.last().0, v@)),
            _ => before,
        }
    }
}

/// The decisions that rows hold; rows whose value cannot be read are skipped.
pub fn restore_decisions<V: View>(rows: Vec<(u64, StoredValue<V>)>) -> (decisions: Vec<(u64, V)>)
    ensures
        decisions@.map_values(|d: (u64, V)| (d.0, d.1@)) == readable_decisions(rows@),
{
    let mut decisions: Vec<(u64, V)> = Vec::new();
    let ghost all = rows@;
    assert(decisions@.map_values(|d: (u64, V)| (d.0, d.1@)) =~= Seq::empty());
    for row in iter: rows
        invariant
            iter.seq() == all,
            decisions@.map_values(|d: (u64, V)| (d.0, d.1@)) == readable_decisions(
                all.take(iter.index() as int),
            ),
    {
        let ghost was = decisions@.map_values(|d: (u64, V)| (d.0, d.1@));
        proof {
            let more = all.take(iter.index() + 1);
            assert(more.drop_last() =~= all.take(iter.index() as int));
            assert(more.last() == row);
        }
        if let StoredValue::Good(value) = row.1 {
            decisions.push((row.0, value));
            assert(decisions@.map_values(|d: (u64, V)| (d.0, d.1@)) =~= was.push(
                (row.0, value@),
            ));
        }
    }
    assert(all.take(all.len() as int) =~= all);
    decisions
}

/// A row holds an acceptor state exactly if the columns of each number are all
/// filled or all empty, and the value is filled, and readable, exactly where the
/// number accepted is.
pub proof fn whole_rows_are_readable<V: View>(row: AcceptorRow<V>)
    ensures
        row.readable() <==> {
            let p = row.highest_promised;
            let a = row.accepted;
            &&& p.round is Some == p.node_name is Some
            &&& p.round is Some == p.node_incarnation is Some
            &&& a.round is Some == a.node_name is Some
            &&& a.round is Some == a.node_incarnation is Some
            &&& a.round is Some == row.accepted_value is Good
            &&& a.round is None == row.accepted_value is Missing
        },
        row.readable() ==> {
            &&& row.highest_promised.number() is Some == row.highest_promised.round is Some
            &&& accepted_of(row.accepted, row.accepted_value) is Some
                == row.accepted.round is Some
        },
{
}

/// Exactly the rows that hold a state are loaded, in their order.
pub proof fn readable_rows_are_loaded<V: View>(rows: Seq<AcceptorRow<V>>)
    ensures
        readable_rows(rows) == rows.filter(|row: AcceptorRow<V>| row.readable()),
        (forall|i: int| 0 <= i < rows.len() ==> (#[trigger] rows[i]).readable())
            ==> readable_rows(rows) == rows,
    decreases rows.len(),
{
    reveal(Seq::filter);
    if rows.len() > 0 {
        let before = rows.drop_last();
        readable_rows_are_loaded(before);
        if forall|i: int| 0 <= i < rows.len() ==> (#[trigger] rows[i]).readable() {
            assert forall|i: int| 0 <= i < before.len() implies (#[trigger] before[i]).readable() by {
                assert(before[i] == rows[i]);
            }
            assert(rows[rows.len() - 1].readable());
            assert(readable_rows(rows) =~= rows);
        }
    }
}

/// Every decision that was saved is loaded, in the order of the rows; a row whose
/// value is missing or bad takes none of the others with it.
pub proof fn readable_decisions_are_loaded<V: View>(
    a: Seq<(u64, StoredValue<V>)>,
    row: (u64, StoredValue<V>),
    b: Seq<(u64, StoredValue<V>)>,
)
    ensures
        row.1 matches StoredValue::Good(v) ==> readable_decisions(a.push(row) + b)
            == readable_decisions(a).push((row.0, v@)) + readable_decisions(b),
        !(row.1 is Good) ==> readable_decisions(a.push(row) + b) == readable_decisions(a)
            + readable_decisions(b),
    decreases b.len(),
{
    let all = a.push(row) + b;
    if b.len() == 0 {
        assert(all =~= a.push(row));
        assert(a.push(row).drop_last() =~= a);
        assert(readable_decisions(a) + readable_decisions(b) =~= readable_decisions(a));
        if let StoredValue::Good(v) = row.1 {
            assert(readable_decisions(a).push((row.0, v@)) + readable_decisions(b)
                =~= readable_decisions(a).push((row.0, v@)));
        }
    } else {
        let before = b.drop_last();
        readable_decisions_are_loaded(a, row, before);
        assert(all.drop_last() =~= a.push(row) + before);
        assert(all.last() == b.last());
        let front = match row.1 {
            StoredValue::Good(v) => readable_decisions(a).push((row.0, v@)),
            _ => readable_decisions(a),
        };
        if let StoredValue::Good(w) = b.last().1 {
            assert((front + readable_decisions(before)).push((b.last().0, w@)) =~= front
                + readable_decisions(before).push((b.last().0, w@)));
        }
    }
}

/// What is saved is loaded: the row of an acceptor state can be read, and what
/// it holds is that state.
pub proof fn saved_states_are_loaded<V: View>(
    row: AcceptorRow<V>,
    saved: AcceptorState<V>,
    loaded: AcceptorState<V>,
)
    requires
        row.holds(saved),
        row.holds(loaded),
    ensures
        loaded.slot == saved.slot,
        loaded@ == saved@,
{
}

} // verus!
