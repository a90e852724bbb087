use concensus::client::read_status;
use concensus::config::NodeId;
use concensus::node::{Decided, NodeAlgorithm, NodeRole, NodeState};
use concensus::service::{
    page_limit, project_status, propose_status, to_decision, watch_lagged, DecisionLog,
    ProposeFailure, WatchBuffer, LAGGED,
};
use concensus::types::{Algorithm, Decision, Role, RpcCode};

fn decision(slot: u64, payload: &'static [u8]) -> Decision {
    Decision {
        slot,
        payload: payload.to_vec(),
    }
}

#[test]
fn range_uses_slot_cursor_and_stops_at_gaps() {
    let mut log = DecisionLog::new();
    log.append(decision(0, b"a"));
    log.append(decision(2, b"c"));

    let (first_page, next_index) = log.range(0, 10);
    assert_eq!(first_page, vec![decision(0, b"a")]);
    assert_eq!(next_index, 1);

    let (gap_page, next_index) = log.range(1, 10);
    assert!(gap_page.is_empty());
    assert_eq!(next_index, 1);

    log.append(decision(1, b"b"));
    let (filled_page, next_index) = log.range(1, 10);
    assert_eq!(filled_page, vec![decision(1, b"b"), decision(2, b"c")]);
    assert_eq!(next_index, 3);
}

#[test]
fn watch_buffers_out_of_order_decisions_until_gap_fills() {
    let mut log = DecisionLog::new();
    log.append(decision(0, b"a"));
    log.append(decision(2, b"c"));

    let mut watch = WatchBuffer::new(0);
    let mut seen = Vec::new();
    for d in log.snapshot() {
        seen.extend(watch.offer(d));
    }
    assert_eq!(
        seen,
        vec![decision(0, b"a")],
        "watch should wait for slot 1 before yielding slot 2"
    );

    let late = decision(1, b"b");
    assert!(log.append(late.clone()));
    let released = watch.offer(late);
    assert_eq!(released, vec![decision(1, b"b"), decision(2, b"c")]);
}

#[test]
fn a_slot_is_kept_once() {
    let mut log = DecisionLog::new();
    assert!(log.append(decision(3, b"first")));
    assert!(!log.append(decision(3, b"second")));
    assert_eq!(log.snapshot(), vec![decision(3, b"first")]);
}

#[test]
fn a_snapshot_is_in_slot_order() {
    let mut log = DecisionLog::new();
    for slot in [4, 1, 3, 0, 2] {
        log.append(decision(slot, b"x"));
    }
    let slots: Vec<u64> = log.snapshot().iter().map(|d| d.slot).collect();
    assert_eq!(slots, vec![0, 1, 2, 3, 4]);
}

#[test]
fn the_order_of_delivery_does_not_matter() {
    let mut a = DecisionLog::new();
    let mut b = DecisionLog::new();
    for slot in [0, 1, 2] {
        a.append(decision(slot, b"v"));
    }
    for slot in [2, 0, 1] {
        b.append(decision(slot, b"v"));
    }
    assert_eq!(a.snapshot(), b.snapshot());
}

#[test]
fn pages_join_to_one_range() {
    let mut log = DecisionLog::new();
    for slot in 0..7 {
        log.append(decision(slot, b"v"));
    }
    let (whole, end) = log.range(0, 100);
    let mut joined = Vec::new();
    let mut at = 0;
    loop {
        let (page, next) = log.range(at, 3);
        if page.is_empty() {
            break;
        }
        joined.extend(page);
        at = next;
    }
    assert_eq!(joined, whole);
    assert_eq!(at, end);
    assert_eq!(end, 7);
}

#[test]
fn a_page_holds_no_more_than_its_limit() {
    let mut log = DecisionLog::new();
    for slot in 0..5 {
        log.append(decision(slot, b"v"));
    }
    let (page, next) = log.range(1, 2);
    assert_eq!(page, vec![decision(1, b"v"), decision(2, b"v")]);
    assert_eq!(next, 3);
    let (page, next) = log.range(2, 0);
    assert!(page.is_empty());
    assert_eq!(next, 2);
}

#[test]
fn a_watch_skips_what_lies_before_it() {
    let mut watch = WatchBuffer::new(2);
    assert!(watch.offer(decision(0, b"a")).is_empty());
    assert!(watch.offer(decision(1, b"b")).is_empty());
    assert_eq!(watch.offer(decision(2, b"c")), vec![decision(2, b"c")]);
    assert!(watch.offer(decision(2, b"again")).is_empty());
    assert_eq!(watch.offer(decision(3, b"d")), vec![decision(3, b"d")]);
}

#[test]
fn the_page_size_defaults() {
    assert_eq!(page_limit(None), 1000);
    assert_eq!(page_limit(Some(0)), 1000);
    assert_eq!(page_limit(Some(7)), 7);
}

#[test]
fn failed_proposals_are_answered() {
    assert_eq!(
        propose_status(ProposeFailure::ChannelFull),
        (RpcCode::ResourceExhausted, "proposal channel full")
    );
    assert_eq!(
        propose_status(ProposeFailure::NotRunning),
        (RpcCode::Unavailable, "node is not running")
    );
    assert_eq!(
        propose_status(ProposeFailure::Cancelled),
        (
            RpcCode::Unavailable,
            "node was shut down before proposal was decided"
        )
    );
    assert_eq!(
        propose_status(ProposeFailure::Superseded),
        (
            RpcCode::Aborted,
            "proposal was superseded by another leader"
        )
    );
}

#[test]
fn a_delivered_value_becomes_a_payload() {
    let d = to_decision(Decided {
        slot: 9,
        value: vec![1, 2, 3],
    });
    assert_eq!(
        d,
        Decision {
            slot: 9,
            payload: vec![1, 2, 3]
        }
    );
}

#[test]
fn a_raft_state_is_read_back() {
    let state = NodeState {
        node_id: NodeId::new("a", 1),
        algorithm: NodeAlgorithm::Raft,
        role: Some(NodeRole::Candidate),
        term: 3,
        leader: Some(NodeId::new("b", 2)),
        voted_for: Some(NodeId::new("a", 1)),
        log_len: 5,
        commit_index: Some(4),
        last_applied: Some(3),
    };
    let response = project_status(state, Algorithm::Paxos);
    assert_eq!(response.algorithm, "raft");
    assert_eq!(response.role, "candidate");
    let status = read_status(response).unwrap();
    assert_eq!(status.node_id, "a@1");
    assert_eq!(status.algorithm, Algorithm::Raft);
    assert_eq!(status.role, Role::Candidate);
    assert_eq!(status.term, 3);
    assert_eq!(status.leader_id, Some("b/2".to_string()));
    assert_eq!(status.log_len, 5);
    assert_eq!(status.commit_index, Some(4));
    assert_eq!(status.last_applied, Some(3));
}

#[test]
fn a_paxos_state_is_read_back() {
    let state = NodeState {
        node_id: NodeId::new("p", 7),
        algorithm: NodeAlgorithm::Paxos,
        role: None,
        term: 0,
        leader: None,
        voted_for: None,
        log_len: 0,
        commit_index: None,
        last_applied: None,
    };
    let response = project_status(state, Algorithm::Paxos);
    assert_eq!(response.node_id, "p@7");
    assert_eq!(response.role, "n/a");
    assert_eq!(response.leader_id, "");
    let status = read_status(response).unwrap();
    assert_eq!(status.algorithm, Algorithm::Paxos);
    assert_eq!(status.role, Role::NotApplicable);
    assert_eq!(status.leader_id, None);
    assert_eq!(status.commit_index, None);
}

#[test]
fn a_lagged_watch_is_told_to_reconnect() {
    let (code, text) = watch_lagged();
    assert_eq!(code, RpcCode::ResourceExhausted);
    assert_eq!(text, LAGGED);
    assert!(text.starts_with("watch lagged behind"));
}
