use concensus::config::NodeId;
use concensus::message::ProposalNumber;
use concensus::storage::AcceptorState;

fn test_node_id() -> NodeId {
    NodeId::new("node-1", 1000)
}

fn make_pn(round: u64) -> ProposalNumber {
    (round, test_node_id())
}

#[test]
fn valid_state_promised_only() {
    let state: AcceptorState<String> = AcceptorState {
        slot: 0,
        highest_promised: Some(make_pn(1)),
        accepted: None,
    };
    assert!(state.is_valid());
}

#[test]
fn valid_state_promised_and_accepted() {
    let state = AcceptorState {
        slot: 0,
        highest_promised: Some(make_pn(2)),
        accepted: Some((make_pn(1), "hello".to_string())),
    };
    assert!(state.is_valid());
}

#[test]
fn valid_state_accepted_equals_promised() {
    let state = AcceptorState {
        slot: 0,
        highest_promised: Some(make_pn(1)),
        accepted: Some((make_pn(1), "hello".to_string())),
    };
    assert!(state.is_valid());
}

#[test]
fn invalid_accepted_without_promised() {
    let state = AcceptorState {
        slot: 0,
        highest_promised: None,
        accepted: Some((make_pn(1), "hello".to_string())),
    };
    assert!(!state.is_valid());
}

#[test]
fn invalid_zero_round_promised() {
    let state: AcceptorState<String> = AcceptorState {
        slot: 0,
        highest_promised: Some(make_pn(0)),
        accepted: None,
    };
    assert!(!state.is_valid());
}

#[test]
fn invalid_zero_round_accepted() {
    let state = AcceptorState {
        slot: 0,
        highest_promised: Some(make_pn(1)),
        accepted: Some((make_pn(0), "hello".to_string())),
    };
    assert!(!state.is_valid());
}

#[test]
fn invalid_accepted_greater_than_promised() {
    let state = AcceptorState {
        slot: 0,
        highest_promised: Some(make_pn(1)),
        accepted: Some((make_pn(2), "hello".to_string())),
    };
    assert!(!state.is_valid());
}

#[test]
fn empty_state_is_valid() {
    let state: AcceptorState<String> = AcceptorState {
        slot: 0,
        highest_promised: None,
        accepted: None,
    };
    assert!(state.is_valid());
}
