use concensus::client::{
    check_endpoints, is_transient, plan_retry, read_status, Retry, WatchCursor, WatchEvent,
    WatchStep,
};
use concensus::types::{Algorithm, Error, Role, RpcCode, RpcStatus, StatusResponse};

fn response() -> StatusResponse {
    StatusResponse {
        node_id: "a@1".to_string(),
        algorithm: "raft".to_string(),
        role: "leader".to_string(),
        term: 4,
        leader_id: "a@1".to_string(),
        log_len: 3,
        commit_index: Some(2),
        last_applied: Some(1),
    }
}

fn failed(code: RpcCode) -> WatchEvent {
    WatchEvent::Failed(Error::Rpc(RpcStatus {
        code,
        text: "gone".to_string(),
    }))
}

#[test]
fn connect_with_no_endpoints_errors() {
    let err = check_endpoints(&vec![]).unwrap_err();
    assert!(matches!(err, Error::NoEndpoints));
}

#[test]
fn connect_with_invalid_endpoint_errors() {
    let err = check_endpoints(&vec!["not a url".to_string()]).unwrap_err();
    assert!(
        matches!(err, Error::InvalidEndpoint(_)),
        "expected InvalidEndpoint, got: {err:?}"
    );
}

#[test]
fn the_first_invalid_endpoint_is_told_with_the_reason() {
    let endpoints = vec![
        "http://127.0.0.1:7000".to_string(),
        "no good".to_string(),
        "worse still".to_string(),
    ];
    let err = check_endpoints(&endpoints).unwrap_err();
    assert_eq!(err.display(), "invalid endpoint: no good: invalid URI");
}

#[test]
fn valid_endpoints_are_taken() {
    let endpoints = vec![
        "http://127.0.0.1:7000".to_string(),
        "https://node.example:443".to_string(),
    ];
    assert!(check_endpoints(&endpoints).is_ok());
}

#[test]
fn algorithm_parses_known_values() {
    assert_eq!("paxos".parse::<Algorithm>().unwrap(), Algorithm::Paxos);
    assert_eq!("raft".parse::<Algorithm>().unwrap(), Algorithm::Raft);
    assert!("zab".parse::<Algorithm>().is_err());
}

#[test]
fn role_parses_known_values() {
    assert_eq!("follower".parse::<Role>().unwrap(), Role::Follower);
    assert_eq!("candidate".parse::<Role>().unwrap(), Role::Candidate);
    assert_eq!("leader".parse::<Role>().unwrap(), Role::Leader);
    assert_eq!("n/a".parse::<Role>().unwrap(), Role::NotApplicable);
    assert!("dictator".parse::<Role>().is_err());
}

#[test]
fn error_display_formats() {
    let e = Error::NoEndpoints;
    assert_eq!(e.display(), "no endpoints configured");
    let e = Error::InvalidEndpoint("foo".into());
    assert_eq!(e.display(), "invalid endpoint: foo");
    let e = Error::Invalid("bar".into());
    assert_eq!(e.display(), "invalid response: bar");
}

#[test]
fn unknown_names_are_quoted_in_the_error() {
    let e = "zab".parse::<Algorithm>().unwrap_err();
    assert_eq!(e.display(), "invalid response: unknown algorithm: \"zab\"");
    let e = "a\"b\n".parse::<Role>().unwrap_err();
    assert_eq!(e.display(), "invalid response: unknown role: \"a\\\"b\\n\"");
}

#[test]
fn names_of_algorithms_and_roles_are_read_back() {
    for a in [Algorithm::Paxos, Algorithm::Raft] {
        assert_eq!(a.as_str().parse::<Algorithm>().unwrap(), a);
    }
    for r in [
        Role::Follower,
        Role::Candidate,
        Role::Leader,
        Role::NotApplicable,
    ] {
        assert_eq!(r.as_str().parse::<Role>().unwrap(), r);
    }
}

#[test]
fn unavailable_goes_to_the_second_endpoint_once() {
    assert_eq!(plan_retry(1, RpcCode::Unavailable, 2), Retry::Endpoint(1));
    assert_eq!(plan_retry(1, RpcCode::Unavailable, 3), Retry::Endpoint(1));
    assert_eq!(plan_retry(1, RpcCode::Unavailable, 1), Retry::Surface);
    assert_eq!(plan_retry(2, RpcCode::Unavailable, 2), Retry::Surface);
}

#[test]
fn a_superseded_proposal_is_made_again_once() {
    assert_eq!(plan_retry(1, RpcCode::Aborted, 1), Retry::SameChannel);
    assert_eq!(plan_retry(2, RpcCode::Aborted, 1), Retry::Surface);
    assert_eq!(plan_retry(1, RpcCode::InvalidArgument, 2), Retry::Surface);
}

#[test]
fn failures_that_pass() {
    assert!(is_transient(RpcCode::Unavailable));
    assert!(is_transient(RpcCode::ResourceExhausted));
    assert!(is_transient(RpcCode::DeadlineExceeded));
    assert!(!is_transient(RpcCode::Internal));
    assert!(!is_transient(RpcCode::Aborted));
}

#[test]
fn a_watch_resumes_behind_the_last_slot() {
    let mut cursor = WatchCursor::new(5);
    assert_eq!(cursor.next_index(), 5);
    assert!(matches!(cursor.step(WatchEvent::Closed), WatchStep::Reopen));
    assert_eq!(cursor.next_index(), 5);
    assert!(matches!(
        cursor.step(WatchEvent::Yielded(5)),
        WatchStep::Read
    ));
    assert!(matches!(
        cursor.step(WatchEvent::Yielded(6)),
        WatchStep::Read
    ));
    assert!(matches!(
        cursor.step(failed(RpcCode::Unavailable)),
        WatchStep::Reopen
    ));
    assert_eq!(cursor.next_index(), 7);
}

#[test]
fn a_watch_stays_at_the_last_slot_there_is() {
    let mut cursor = WatchCursor::new(0);
    cursor.step(WatchEvent::Yielded(u64::MAX));
    assert_eq!(cursor.next_index(), u64::MAX);
}

#[test]
fn a_watch_ends_with_a_failure_that_does_not_pass() {
    let mut cursor = WatchCursor::new(0);
    match cursor.step(failed(RpcCode::InvalidArgument)) {
        WatchStep::End(Error::Rpc(status)) => assert_eq!(status.code, RpcCode::InvalidArgument),
        other => panic!("expected the end, got {other:?}"),
    }
    let step = cursor.step(WatchEvent::Failed(Error::Transport("refused".to_string())));
    assert!(matches!(step, WatchStep::End(Error::Transport(_))));
}

#[test]
fn a_status_is_read() {
    let status = read_status(response()).unwrap();
    assert_eq!(status.node_id, "a@1");
    assert_eq!(status.algorithm, Algorithm::Raft);
    assert_eq!(status.role, Role::Leader);
    assert_eq!(status.term, 4);
    assert_eq!(status.leader_id, Some("a@1".to_string()));
    assert_eq!(status.log_len, 3);
    assert_eq!(status.commit_index, Some(2));
    assert_eq!(status.last_applied, Some(1));
}

#[test]
fn an_empty_leader_is_none() {
    let mut r = response();
    r.leader_id = String::new();
    assert_eq!(read_status(r).unwrap().leader_id, None);
}

#[test]
fn a_status_with_an_unknown_name_is_invalid() {
    let mut r = response();
    r.algorithm = "zab".to_string();
    r.role = "dictator".to_string();
    assert_eq!(
        read_status(r).unwrap_err().display(),
        "invalid response: unknown algorithm: \"zab\""
    );
    let mut r = response();
    r.role = "dictator".to_string();
    assert_eq!(
        read_status(r).unwrap_err().display(),
        "invalid response: unknown role: \"dictator\""
    );
}
