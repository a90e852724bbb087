use concensus::config::NodeId;
use concensus::message::ProposalNumber;
use concensus::rows::{
    restore_accepted, restore_decisions, restore_state, restore_states, split_accepted,
    split_proposal_number, split_state, AcceptorRow, ProposalNumberColumns, StoredValue,
};
use concensus::storage::AcceptorState;

fn make_pn(round: u64) -> ProposalNumber {
    (round, NodeId::new("node-1", 1000))
}

fn columns(round: Option<u64>, name: Option<&str>, incarnation: Option<u64>) -> ProposalNumberColumns {
    ProposalNumberColumns {
        round,
        node_name: name.map(|n| n.to_string()),
        node_incarnation: incarnation,
    }
}

fn full(round: u64) -> ProposalNumberColumns {
    columns(Some(round), Some("node-1"), Some(1000))
}

fn empty() -> ProposalNumberColumns {
    columns(None, None, None)
}

fn good(value: &str) -> StoredValue<String> {
    StoredValue::Good(value.to_string())
}

#[test]
fn duckdb_load_acceptor_states_skips_invalid_rows() {
    let rows = vec![
        split_state(AcceptorState {
            slot: 5,
            highest_promised: Some(make_pn(3)),
            accepted: Some((make_pn(2), "accepted".to_string())),
        }),
        AcceptorRow {
            slot: 6,
            highest_promised: columns(Some(4), None, Some(1000)),
            accepted: empty(),
            accepted_value: StoredValue::Missing,
        },
        AcceptorRow {
            slot: 7,
            highest_promised: full(3),
            accepted: columns(Some(2), None, Some(1000)),
            accepted_value: good("accepted"),
        },
        AcceptorRow {
            slot: 8,
            highest_promised: full(3),
            accepted: full(2),
            accepted_value: stored("{bad-accepted"),
        },
        AcceptorRow {
            slot: 9,
            highest_promised: full(3),
            accepted: empty(),
            accepted_value: good("accepted-without-proposal"),
        },
        AcceptorRow {
            slot: 10,
            highest_promised: full(3),
            accepted: full(2),
            accepted_value: StoredValue::Missing,
        },
    ];
    let states = restore_states(rows);
    assert_eq!(states.len(), 1);
    assert_eq!(states[0].slot, 5);
    assert_eq!(states[0].highest_promised, Some(make_pn(3)));
    assert_eq!(
        states[0].accepted,
        Some((make_pn(2), "accepted".to_string()))
    );
}

#[test]
fn a_state_is_split_into_columns() {
    let row = split_state(AcceptorState {
        slot: 5,
        highest_promised: Some(make_pn(3)),
        accepted: Some((make_pn(2), "v".to_string())),
    });
    assert_eq!(row.slot, 5);
    assert_eq!(row.highest_promised.round, Some(3));
    assert_eq!(row.highest_promised.node_name, Some("node-1".to_string()));
    assert_eq!(row.highest_promised.node_incarnation, Some(1000));
    assert_eq!(row.accepted.round, Some(2));
    assert!(matches!(row.accepted_value, StoredValue::Good(v) if v == "v"));
}

#[test]
fn what_is_missing_is_split_into_empty_columns() {
    let number = split_proposal_number(None);
    assert_eq!(number.round, None);
    assert_eq!(number.node_name, None);
    assert_eq!(number.node_incarnation, None);
    let (accepted, value) = split_accepted::<String>(None);
    assert_eq!(accepted.round, None);
    assert!(matches!(value, StoredValue::Missing));
}

#[test]
fn a_state_without_a_promise_is_restored_empty() {
    let row: AcceptorRow<String> = AcceptorRow {
        slot: 1,
        highest_promised: empty(),
        accepted: empty(),
        accepted_value: StoredValue::Missing,
    };
    let state = restore_state(row).unwrap();
    assert_eq!(state.highest_promised, None);
    assert_eq!(state.accepted, None);
}

#[test]
fn a_state_is_restored_whatever_its_numbers_are() {
    let row = AcceptorRow {
        slot: 1,
        highest_promised: full(1),
        accepted: full(2),
        accepted_value: good("v"),
    };
    let state = restore_state(row).unwrap();
    assert_eq!(state.accepted, Some((make_pn(2), "v".to_string())));
    assert!(!state.is_valid());
}

#[test]
fn accepted_columns_hold_all_or_nothing() {
    assert_eq!(
        restore_accepted(full(2), good("v")),
        Some(Some((make_pn(2), "v".to_string())))
    );
    assert_eq!(
        restore_accepted::<String>(empty(), StoredValue::Missing),
        Some(None)
    );
    assert_eq!(restore_accepted(empty(), good("v")), None);
    assert_eq!(
        restore_accepted::<String>(full(2), StoredValue::Missing),
        None
    );
    assert_eq!(restore_accepted::<String>(full(2), StoredValue::Bad), None);
}

/// A column of JSON text as it is read.
fn stored(json: &str) -> StoredValue<String> {
    match serde_json::from_str::<String>(json) {
        Ok(value) => StoredValue::Good(value),
        Err(_) => StoredValue::Bad,
    }
}

#[test]
fn duckdb_load_decisions_skips_bad_json_rows() {
    let valid = serde_json::to_string("valid").unwrap();
    let rows = vec![(0, stored(&valid)), (1, stored("{not-json"))];
    assert_eq!(restore_decisions(rows), vec![(0, "valid".to_string())]);
}

#[test]
fn decisions_without_a_value_are_skipped() {
    let rows = vec![
        (0, good("hello")),
        (1, StoredValue::Bad),
        (2, good("world")),
    ];
    assert_eq!(
        restore_decisions(rows),
        vec![(0, "hello".to_string()), (2, "world".to_string())]
    );
}
