//! The Raft state machine: elections, replication, commitment, forwarding,
//! persistence and recovery.
use concensus::config::{NodeId, RaftConfig};
use concensus::error::StorageError;
use concensus::message::{LogEntry, RaftMessage, SendTarget, MAX_FORWARD_HOPS};
use concensus::node::NodeRole;
use concensus::raft::RaftProtocol;
use concensus::raft_model::Role;
use concensus::storage::{RaftMemoryStorage, RaftStorage, RaftStored};
use concensus::value::Model;

const NOW: u64 = 1_000_000;

fn raft(
    node_id: NodeId,
    total_nodes: usize,
    config: RaftConfig,
) -> RaftProtocol<String, RaftMemoryStorage<String>> {
    RaftProtocol::new(node_id, total_nodes, config, RaftMemoryStorage::new(), NOW)
}

#[test]
fn new_raft_protocol_starts_as_follower() {
    let proto = raft(NodeId::new("a", 1), 3, RaftConfig::default());
    assert!(matches!(proto.role, Role::Follower));
    assert_eq!(proto.current_term, 0);
    assert!(proto.voted_for.is_none());
}

#[test]
fn is_idle_when_log_empty() {
    let proto = raft(NodeId::new("a", 1), 3, RaftConfig::default());
    assert!(proto.is_idle());
}

#[test]
fn quorum_for_three_nodes() {
    let proto = raft(NodeId::new("a", 1), 3, RaftConfig::default());
    assert_eq!(proto.quorum(), 2);
}

#[test]
fn quorum_for_five_nodes() {
    let proto = raft(NodeId::new("a", 1), 5, RaftConfig::default());
    assert_eq!(proto.quorum(), 3);
}

#[test]
fn election_timeout_starts_election() {
    let mut p = raft(NodeId::new("a", 1), 3, RaftConfig::default());
    p.election_deadline = NOW - 10;
    let out = p.on_tick(NOW);
    assert!(matches!(p.role, Role::Candidate));
    assert_eq!(p.current_term, 1);
    assert_eq!(p.voted_for, Some(p.node_id.clone()));
    assert_eq!(out.len(), 1);
    assert!(matches!(out[0].target, SendTarget::Broadcast));
    assert!(matches!(
        out[0].message,
        RaftMessage::RequestVote { term: 1, .. }
    ));
    // Self-vote should be counted
    assert!(p.votes_received.contains(&p.node_id));
}

#[test]
fn request_vote_grants_when_term_higher() {
    let mut p = raft(NodeId::new("a", 1), 3, RaftConfig::default());
    let candidate = NodeId::new("b", 1);
    let out = p.handle_message(
        candidate.clone(),
        RaftMessage::RequestVote {
            term: 5,
            candidate: candidate.clone(),
            last_log_index: None,
            last_log_term: 0,
        },
        NOW,
    );
    assert_eq!(p.current_term, 5);
    assert_eq!(p.voted_for, Some(candidate.clone()));
    assert_eq!(out.len(), 1);
    match &out[0].message {
        RaftMessage::RequestVoteResponse { term, vote_granted } => {
            assert_eq!(*term, 5);
            assert!(*vote_granted);
        }
        _ => panic!("expected RequestVoteResponse"),
    }
    match &out[0].target {
        SendTarget::Peer(t) => assert_eq!(t, &candidate),
        _ => panic!("expected Peer target"),
    }
}

#[test]
fn request_vote_rejects_lower_term() {
    let mut p = raft(NodeId::new("a", 1), 3, RaftConfig::default());
    p.current_term = 5;
    let out = p.handle_message(
        NodeId::new("b", 1),
        RaftMessage::RequestVote {
            term: 3,
            candidate: NodeId::new("b", 1),
            last_log_index: None,
            last_log_term: 0,
        },
        NOW,
    );
    assert_eq!(p.current_term, 5);
    match &out[0].message {
        RaftMessage::RequestVoteResponse {
            term: 5,
            vote_granted: false,
        } => {}
        other => panic!("expected denied RVR with our term, got {:?}", other),
    }
}

#[test]
fn request_vote_rejects_stale_log() {
    let mut p = raft(NodeId::new("a", 1), 3, RaftConfig::default());
    p.log.push(LogEntry {
        term: 3,
        value: "x".into(),
    });
    p.current_term = 3;
    let out = p.handle_message(
        NodeId::new("b", 1),
        RaftMessage::RequestVote {
            term: 4,
            candidate: NodeId::new("b", 1),
            last_log_index: None,
            last_log_term: 0,
        },
        NOW,
    );
    match &out[0].message {
        RaftMessage::RequestVoteResponse { vote_granted, .. } => assert!(!*vote_granted),
        _ => panic!(),
    }
}

#[test]
fn request_vote_already_voted_in_same_term_rejects_other() {
    let mut p = raft(NodeId::new("a", 1), 3, RaftConfig::default());
    let b = NodeId::new("b", 1);
    let c = NodeId::new("c", 1);
    let _ = p.handle_message(
        b.clone(),
        RaftMessage::RequestVote {
            term: 5,
            candidate: b.clone(),
            last_log_index: None,
            last_log_term: 0,
        },
        NOW,
    );
    assert_eq!(p.voted_for, Some(b));
    let out = p.handle_message(
        c.clone(),
        RaftMessage::RequestVote {
            term: 5,
            candidate: c,
            last_log_index: None,
            last_log_term: 0,
        },
        NOW,
    );
    match &out[0].message {
        RaftMessage::RequestVoteResponse {
            vote_granted: false,
            ..
        } => {}
        _ => panic!("should reject second vote in same term"),
    }
}

#[test]
fn vote_quorum_promotes_to_leader_and_heartbeats() {
    let me = NodeId::new("a", 1);
    let mut p = raft(me.clone(), 3, RaftConfig::default());
    p.election_deadline = NOW - 1;
    let _ = p.on_tick(NOW);
    assert!(matches!(p.role, Role::Candidate));

    let out = p.handle_message(
        NodeId::new("b", 1),
        RaftMessage::RequestVoteResponse {
            term: 1,
            vote_granted: true,
        },
        NOW,
    );
    assert!(matches!(p.role, Role::Leader));
    assert_eq!(p.leader, Some(me));
    assert_eq!(out.len(), 1);
    assert!(matches!(out[0].target, SendTarget::Broadcast));
    match &out[0].message {
        RaftMessage::AppendEntries {
            term: 1, entries, ..
        } => assert!(entries.is_empty()),
        _ => panic!("expected empty AppendEntries heartbeat"),
    }
}

#[test]
fn higher_term_steps_down_to_follower() {
    let mut p = raft(NodeId::new("a", 1), 3, RaftConfig::default());
    p.role = Role::Leader;
    p.current_term = 3;
    p.voted_for = Some(p.node_id.clone());
    let _ = p.handle_message(
        NodeId::new("b", 1),
        RaftMessage::RequestVote {
            term: 5,
            candidate: NodeId::new("b", 1),
            last_log_index: None,
            last_log_term: 0,
        },
        NOW,
    );
    assert_eq!(p.current_term, 5);
    assert!(matches!(p.role, Role::Follower));
}

#[test]
fn vote_response_for_old_term_ignored() {
    let mut p = raft(NodeId::new("a", 1), 3, RaftConfig::default());
    p.election_deadline = NOW - 1;
    let _ = p.on_tick(NOW); // p.current_term = 1
    let out = p.handle_message(
        NodeId::new("b", 1),
        RaftMessage::RequestVoteResponse {
            term: 0, // stale
            vote_granted: true,
        },
        NOW,
    );
    assert!(out.is_empty());
    assert!(matches!(p.role, Role::Candidate)); // unchanged
}

#[test]
fn append_entries_resets_election_timer_and_accepts_leader() {
    let mut p = raft(NodeId::new("a", 1), 3, RaftConfig::default());
    let leader = NodeId::new("b", 1);
    // Force a known-stale deadline so the reset is observable regardless of
    // how the next randomized sample lands.
    let earlier_deadline = NOW - 1000;
    p.election_deadline = earlier_deadline;
    let out = p.handle_message(
        leader.clone(),
        RaftMessage::AppendEntries {
            term: 1,
            leader: leader.clone(),
            prev_log_index: None,
            prev_log_term: 0,
            entries: vec![],
            leader_commit: None,
        },
        NOW,
    );
    assert_eq!(p.current_term, 1);
    assert!(matches!(p.role, Role::Follower));
    assert_eq!(p.leader, Some(leader.clone()));
    assert!(p.election_deadline > earlier_deadline);
    match &out[0].message {
        RaftMessage::AppendEntriesResponse {
            success: true,
            term: 1,
            ..
        } => {}
        other => panic!("expected success AER, got {:?}", other),
    }
    match &out[0].target {
        SendTarget::Peer(t) => assert_eq!(t, &leader),
        _ => panic!("expected Peer target"),
    }
}

#[test]
fn append_entries_rejects_lower_term() {
    let mut p = raft(NodeId::new("a", 1), 3, RaftConfig::default());
    p.current_term = 5;
    let out = p.handle_message(
        NodeId::new("b", 1),
        RaftMessage::AppendEntries {
            term: 3,
            leader: NodeId::new("b", 1),
            prev_log_index: None,
            prev_log_term: 0,
            entries: vec![],
            leader_commit: None,
        },
        NOW,
    );
    match &out[0].message {
        RaftMessage::AppendEntriesResponse {
            success: false,
            term: 5,
            ..
        } => {}
        _ => panic!("expected rejection with our term"),
    }
}

#[test]
fn append_entries_rejects_log_gap() {
    let mut p = raft(NodeId::new("a", 1), 3, RaftConfig::default());
    let out = p.handle_message(
        NodeId::new("b", 1),
        RaftMessage::AppendEntries {
            term: 1,
            leader: NodeId::new("b", 1),
            prev_log_index: Some(2), // claims our log has 3+ entries; we have 0
            prev_log_term: 1,
            entries: vec![LogEntry {
                term: 1,
                value: "x".into(),
            }],
            leader_commit: None,
        },
        NOW,
    );
    match &out[0].message {
        RaftMessage::AppendEntriesResponse { success: false, .. } => {}
        _ => panic!(),
    }
    assert!(p.log.is_empty());
}

#[test]
fn append_entries_rejects_term_mismatch_at_prev() {
    let mut p = raft(NodeId::new("a", 1), 3, RaftConfig::default());
    p.log.push(LogEntry {
        term: 1,
        value: "old".into(),
    });
    p.current_term = 1;
    let out = p.handle_message(
        NodeId::new("b", 1),
        RaftMessage::AppendEntries {
            term: 1,
            leader: NodeId::new("b", 1),
            prev_log_index: Some(0),
            prev_log_term: 5, // mismatch — our log[0].term is 1
            entries: vec![],
            leader_commit: None,
        },
        NOW,
    );
    match &out[0].message {
        RaftMessage::AppendEntriesResponse { success: false, .. } => {}
        _ => panic!(),
    }
}

#[test]
fn append_entries_appends_when_prev_matches() {
    let mut p = raft(NodeId::new("a", 1), 3, RaftConfig::default());
    let _ = p.handle_message(
        NodeId::new("b", 1),
        RaftMessage::AppendEntries {
            term: 1,
            leader: NodeId::new("b", 1),
            prev_log_index: None,
            prev_log_term: 0,
            entries: vec![LogEntry {
                term: 1,
                value: "x".into(),
            }],
            leader_commit: None,
        },
        NOW,
    );
    assert_eq!(p.log.len(), 1);
    assert_eq!(p.log[0].value, "x");
    let _ = p.handle_message(
        NodeId::new("b", 1),
        RaftMessage::AppendEntries {
            term: 1,
            leader: NodeId::new("b", 1),
            prev_log_index: Some(0),
            prev_log_term: 1,
            entries: vec![LogEntry {
                term: 1,
                value: "y".into(),
            }],
            leader_commit: None,
        },
        NOW,
    );
    assert_eq!(p.log.len(), 2);
    assert_eq!(p.log[1].value, "y");
}

#[test]
fn append_entries_truncates_conflicting_suffix() {
    let mut p = raft(NodeId::new("a", 1), 3, RaftConfig::default());
    p.current_term = 2;
    p.log = vec![
        LogEntry {
            term: 1,
            value: "a".into(),
        },
        LogEntry {
            term: 1,
            value: "stale".into(),
        },
    ];
    let _ = p.handle_message(
        NodeId::new("b", 1),
        RaftMessage::AppendEntries {
            term: 2,
            leader: NodeId::new("b", 1),
            prev_log_index: Some(0),
            prev_log_term: 1,
            entries: vec![LogEntry {
                term: 2,
                value: "fresh".into(),
            }],
            leader_commit: None,
        },
        NOW,
    );
    assert_eq!(p.log.len(), 2);
    assert_eq!(p.log[0].value, "a");
    assert_eq!(p.log[1].value, "fresh");
    assert_eq!(p.log[1].term, 2);
}

#[test]
fn empty_heartbeat_match_index_reflects_only_prev_log_index_with_stale_suffix() {
    // Follower has a matching prefix [0..=2] from term 1 plus an unverified
    // stale suffix [3..=5] from a prior term that the current leader did
    // not produce. A heartbeat with `prev_log_index = Some(2)` must report
    // match_index = Some(2), not Some(5) — otherwise the leader treats the
    // stale suffix as replicated.
    let mut p = raft(NodeId::new("a", 1), 3, RaftConfig::default());
    p.current_term = 5;
    p.log = vec![
        LogEntry {
            term: 1,
            value: "0".into(),
        },
        LogEntry {
            term: 1,
            value: "1".into(),
        },
        LogEntry {
            term: 1,
            value: "2".into(),
        },
        // Stale suffix from a prior term — never confirmed by current leader.
        LogEntry {
            term: 2,
            value: "stale-3".into(),
        },
        LogEntry {
            term: 2,
            value: "stale-4".into(),
        },
        LogEntry {
            term: 2,
            value: "stale-5".into(),
        },
    ];
    let leader = NodeId::new("b", 1);
    let out = p.handle_message(
        leader.clone(),
        RaftMessage::AppendEntries {
            term: 5,
            leader: leader.clone(),
            prev_log_index: Some(2),
            prev_log_term: 1,
            entries: vec![],
            leader_commit: None,
        },
        NOW,
    );
    let response = out
        .iter()
        .find_map(|o| match &o.message {
            RaftMessage::AppendEntriesResponse {
                success,
                match_index,
                ..
            } => Some((*success, *match_index)),
            _ => None,
        })
        .expect("expected an AppendEntriesResponse");
    assert!(response.0, "heartbeat with matching prev should succeed");
    assert_eq!(
        response.1,
        Some(2),
        "match_index should reflect only the verified prefix, not the stale suffix"
    );
    // The stale suffix is truncated on a successful AppendEntries, so that the
    // log is the verified prefix.
    assert_eq!(p.log.len(), 3);
}

#[test]
fn append_entries_match_index_excludes_stale_suffix_beyond_request() {
    // Leader sends prev=2 with two new entries (covering indices 3 and 4).
    // Follower has a longer stale suffix at indices 3..=5. After the loop,
    // indices 3 and 4 match the leader (truncate-and-append on conflict),
    // but index 5 is still unverified. match_index should be 4, not 5.
    let mut p = raft(NodeId::new("a", 1), 3, RaftConfig::default());
    p.current_term = 5;
    p.log = vec![
        LogEntry {
            term: 1,
            value: "0".into(),
        },
        LogEntry {
            term: 1,
            value: "1".into(),
        },
        LogEntry {
            term: 1,
            value: "2".into(),
        },
        LogEntry {
            term: 2,
            value: "stale-3".into(),
        },
        LogEntry {
            term: 2,
            value: "stale-4".into(),
        },
        LogEntry {
            term: 2,
            value: "stale-5".into(),
        },
    ];
    let leader = NodeId::new("b", 1);
    let out = p.handle_message(
        leader.clone(),
        RaftMessage::AppendEntries {
            term: 5,
            leader: leader.clone(),
            prev_log_index: Some(2),
            prev_log_term: 1,
            entries: vec![
                LogEntry {
                    term: 5,
                    value: "new-3".into(),
                },
                LogEntry {
                    term: 5,
                    value: "new-4".into(),
                },
            ],
            leader_commit: None,
        },
        NOW,
    );
    let match_index = out
        .iter()
        .find_map(|o| match &o.message {
            RaftMessage::AppendEntriesResponse { match_index, .. } => Some(*match_index),
            _ => None,
        })
        .expect("expected an AppendEntriesResponse");
    assert_eq!(
        match_index,
        Some(4),
        "match_index should be prev_log_index + entries.len(), not log.len() - 1"
    );
}

#[test]
fn append_entries_match_index_none_for_empty_initial_heartbeat() {
    // First heartbeat from a new leader to a fresh follower: prev_log_index
    // is None and entries is empty. Nothing has been verified by this RPC.
    let mut p = raft(NodeId::new("a", 1), 3, RaftConfig::default());
    let leader = NodeId::new("b", 1);
    let out = p.handle_message(
        leader.clone(),
        RaftMessage::AppendEntries {
            term: 1,
            leader: leader.clone(),
            prev_log_index: None,
            prev_log_term: 0,
            entries: vec![],
            leader_commit: None,
        },
        NOW,
    );
    let match_index = out
        .iter()
        .find_map(|o| match &o.message {
            RaftMessage::AppendEntriesResponse { match_index, .. } => Some(*match_index),
            _ => None,
        })
        .expect("expected an AppendEntriesResponse");
    assert_eq!(match_index, None);
}

#[test]
fn append_entries_match_index_when_prev_none_with_entries() {
    // prev_log_index = None, entries fill indices [0..=1]. Verified up to 1.
    let mut p = raft(NodeId::new("a", 1), 3, RaftConfig::default());
    let leader = NodeId::new("b", 1);
    let out = p.handle_message(
        leader.clone(),
        RaftMessage::AppendEntries {
            term: 1,
            leader: leader.clone(),
            prev_log_index: None,
            prev_log_term: 0,
            entries: vec![
                LogEntry {
                    term: 1,
                    value: "x".into(),
                },
                LogEntry {
                    term: 1,
                    value: "y".into(),
                },
            ],
            leader_commit: None,
        },
        NOW,
    );
    let match_index = out
        .iter()
        .find_map(|o| match &o.message {
            RaftMessage::AppendEntriesResponse { match_index, .. } => Some(*match_index),
            _ => None,
        })
        .expect("expected an AppendEntriesResponse");
    assert_eq!(match_index, Some(1));
}

#[test]
fn append_entries_idempotent_for_already_present_entries() {
    let mut p = raft(NodeId::new("a", 1), 3, RaftConfig::default());
    p.current_term = 1;
    p.log = vec![
        LogEntry {
            term: 1,
            value: "a".into(),
        },
        LogEntry {
            term: 1,
            value: "b".into(),
        },
    ];
    let _ = p.handle_message(
        NodeId::new("b", 1),
        RaftMessage::AppendEntries {
            term: 1,
            leader: NodeId::new("b", 1),
            prev_log_index: Some(0),
            prev_log_term: 1,
            // Re-sends entry at index 1 — already matches our log.
            entries: vec![LogEntry {
                term: 1,
                value: "b".into(),
            }],
            leader_commit: None,
        },
        NOW,
    );
    assert_eq!(p.log.len(), 2);
    assert_eq!(p.log[1].value, "b");
}

#[test]
fn leader_commit_advances_commit_index_and_yields_decisions() {
    let mut p = raft(NodeId::new("a", 1), 3, RaftConfig::default());
    let _ = p.handle_message(
        NodeId::new("b", 1),
        RaftMessage::AppendEntries {
            term: 1,
            leader: NodeId::new("b", 1),
            prev_log_index: None,
            prev_log_term: 0,
            entries: vec![
                LogEntry {
                    term: 1,
                    value: "x".into(),
                },
                LogEntry {
                    term: 1,
                    value: "y".into(),
                },
            ],
            leader_commit: Some(1),
        },
        NOW,
    );
    assert_eq!(p.commit_index, Some(1));
    let decisions = p.take_decisions();
    assert_eq!(decisions.len(), 2);
    assert_eq!(decisions[0].slot, 0);
    assert_eq!(decisions[0].value, "x");
    assert_eq!(decisions[1].slot, 1);
    assert_eq!(decisions[1].value, "y");
}

#[test]
fn leader_propose_appends_to_log_and_emits_append_entries() {
    let me = NodeId::new("a", 1);
    let mut p = raft(me.clone(), 3, RaftConfig::default());
    p.role = Role::Leader;
    p.current_term = 1;
    p.leader = Some(me.clone());
    let out =
        p.propose("hello".into(), NOW);
    assert_eq!(p.log.len(), 1);
    assert_eq!(p.log[0].value, "hello");
    assert_eq!(p.log[0].term, 1);
    assert_eq!(p.match_index.get(&me), Some(&Some(0)));
    assert!(out.iter().any(|o| matches!(&o.message,
        RaftMessage::AppendEntries { entries, .. } if entries.len() == 1 && entries[0].value == "hello"
    )));
}

#[test]
fn leader_advances_commit_on_majority_match() {
    let me = NodeId::new("a", 1);
    let b = NodeId::new("b", 1);
    let mut p = raft(me.clone(), 3, RaftConfig::default());
    p.role = Role::Leader;
    p.current_term = 1;
    p.leader = Some(me.clone());
    p.log.push(LogEntry {
        term: 1,
        value: "x".into(),
    });
    p.match_index.insert(me.clone(), Some(0));
    let _ = p.handle_message(
        b.clone(),
        RaftMessage::AppendEntriesResponse {
            term: 1,
            success: true,
            match_index: Some(0),
            conflict_term: None,
            conflict_index: None,
        },
        NOW,
    );
    assert_eq!(p.commit_index, Some(0));
    let decisions = p.take_decisions();
    assert_eq!(decisions.len(), 1);
    assert_eq!(decisions[0].slot, 0);
    assert_eq!(decisions[0].value, "x");
}

#[test]
fn leader_does_not_commit_entry_from_prior_term() {
    let me = NodeId::new("a", 1);
    let b = NodeId::new("b", 1);
    let mut p = raft(me.clone(), 3, RaftConfig::default());
    p.role = Role::Leader;
    p.current_term = 5;
    p.leader = Some(me.clone());
    p.log.push(LogEntry {
        term: 3,
        value: "old".into(),
    });
    p.match_index.insert(me.clone(), Some(0));
    let _ = p.handle_message(
        b.clone(),
        RaftMessage::AppendEntriesResponse {
            term: 5,
            success: true,
            match_index: Some(0),
            conflict_term: None,
            conflict_index: None,
        },
        NOW,
    );
    assert_eq!(p.commit_index, None);
}

#[test]
fn leader_response_for_old_term_ignored() {
    let me = NodeId::new("a", 1);
    let b = NodeId::new("b", 1);
    let mut p = raft(me.clone(), 3, RaftConfig::default());
    p.role = Role::Leader;
    p.current_term = 5;
    p.leader = Some(me.clone());
    let _ = p.handle_message(
        b,
        RaftMessage::AppendEntriesResponse {
            term: 3,
            success: true,
            match_index: Some(0),
            conflict_term: None,
            conflict_index: None,
        },
        NOW,
    );
    assert_eq!(p.match_index.len(), 0);
    assert_eq!(p.commit_index, None);
}

#[test]
fn leader_rewinds_next_index_on_rejection() {
    let me = NodeId::new("a", 1);
    let b = NodeId::new("b", 1);
    let mut p = raft(me.clone(), 3, RaftConfig::default());
    p.role = Role::Leader;
    p.current_term = 1;
    p.leader = Some(me.clone());
    p.log = (0..5)
        .map(|i| LogEntry {
            term: 1,
            value: format!("v{}", i),
        })
        .collect();
    p.next_index.insert(b.clone(), 5);
    let out = p.handle_message(
        b.clone(),
        RaftMessage::AppendEntriesResponse {
            term: 1,
            success: false,
            match_index: None,
            conflict_term: None,
            conflict_index: None,
        },
        NOW,
    );
    assert_eq!(p.next_index.get(&b), Some(&4));
    assert!(matches!(&out[0].message, RaftMessage::AppendEntries { .. }));
}

#[test]
fn leader_commit_is_capped_at_last_log_index() {
    let mut p = raft(NodeId::new("a", 1), 3, RaftConfig::default());
    let _ = p.handle_message(
        NodeId::new("b", 1),
        RaftMessage::AppendEntries {
            term: 1,
            leader: NodeId::new("b", 1),
            prev_log_index: None,
            prev_log_term: 0,
            entries: vec![LogEntry {
                term: 1,
                value: "x".into(),
            }],
            leader_commit: Some(99), // way past end
        },
        NOW,
    );
    // Our log has only index 0; commit_index should be Some(0), not Some(99).
    assert_eq!(p.commit_index, Some(0));
}

#[test]
fn empty_heartbeat_does_not_commit_unverified_stale_suffix() {
    // A heartbeat with `leader_commit > prev_log_index` must not advance
    // commit_index over a stale suffix the new leader hasn't verified.
    let mut p = raft(NodeId::new("f", 1), 3, RaftConfig::default());
    p.current_term = 5;
    // Stale suffix from a deposed leader: indices 0..=4 with terms 1,1,1,2,2.
    p.log = vec![
        LogEntry {
            term: 1,
            value: "a".into(),
        },
        LogEntry {
            term: 1,
            value: "b".into(),
        },
        LogEntry {
            term: 1,
            value: "c".into(),
        },
        LogEntry {
            term: 2,
            value: "d".into(),
        },
        LogEntry {
            term: 2,
            value: "e".into(),
        },
    ];
    // New leader L2 in term 5 sends a heartbeat verifying only up to index 2,
    // but reports leader_commit=3 (a value committed via a different quorum).
    let _ = p.handle_message(
        NodeId::new("L2", 1),
        RaftMessage::AppendEntries {
            term: 5,
            leader: NodeId::new("L2", 1),
            prev_log_index: Some(2),
            prev_log_term: 1,
            entries: vec![],
            leader_commit: Some(3),
        },
        NOW,
    );
    // commit_index must be capped at the verified index (2), NOT at
    // leader_commit (3) — index 3 in our log is the stale `T2:d`, which
    // L2 did not commit.
    assert_eq!(p.commit_index, Some(2));
}

#[test]
fn empty_heartbeat_with_no_prev_does_not_commit() {
    // When prev_log_index is None and entries is empty, nothing is
    // verified — commit_index must not advance even if the local log is
    // non-empty (stale suffix case at the very start of the log).
    let mut p = raft(NodeId::new("f", 1), 3, RaftConfig::default());
    p.current_term = 5;
    p.log = vec![LogEntry {
        term: 2,
        value: "stale".into(),
    }];
    let _ = p.handle_message(
        NodeId::new("L2", 1),
        RaftMessage::AppendEntries {
            term: 5,
            leader: NodeId::new("L2", 1),
            prev_log_index: None,
            prev_log_term: 0,
            entries: vec![],
            leader_commit: Some(0),
        },
        NOW,
    );
    assert_eq!(p.commit_index, None);
}

#[test]
fn successful_heartbeat_truncates_unverified_stale_suffix() {
    // A successful AppendEntries (including an empty heartbeat) should
    // truncate any stale suffix beyond the verified prefix, so the log
    // matches the leader's view exactly.
    let mut p = raft(NodeId::new("f", 1), 3, RaftConfig::default());
    p.current_term = 5;
    // 5 entries; only the first 3 are confirmable by the new leader.
    p.log = vec![
        LogEntry {
            term: 1,
            value: "a".into(),
        },
        LogEntry {
            term: 1,
            value: "b".into(),
        },
        LogEntry {
            term: 1,
            value: "c".into(),
        },
        LogEntry {
            term: 2,
            value: "stale-d".into(),
        },
        LogEntry {
            term: 2,
            value: "stale-e".into(),
        },
    ];
    let _ = p.handle_message(
        NodeId::new("L2", 1),
        RaftMessage::AppendEntries {
            term: 5,
            leader: NodeId::new("L2", 1),
            prev_log_index: Some(2),
            prev_log_term: 1,
            entries: vec![],
            leader_commit: None,
        },
        NOW,
    );
    assert_eq!(p.log.len(), 3, "stale suffix should be truncated");
    assert_eq!(p.pending_truncate_from, Some(3));
}

#[test]
fn successful_appendentries_truncates_suffix_past_new_entries() {
    // When AE includes new entries that overlap an existing suffix,
    // any extra suffix beyond the new entries is also truncated.
    let mut p = raft(NodeId::new("f", 1), 3, RaftConfig::default());
    p.current_term = 5;
    p.log = vec![
        LogEntry {
            term: 1,
            value: "a".into(),
        },
        LogEntry {
            term: 1,
            value: "b".into(),
        },
        LogEntry {
            term: 1,
            value: "c".into(),
        },
        LogEntry {
            term: 2,
            value: "stale-d".into(),
        },
        LogEntry {
            term: 2,
            value: "stale-e".into(),
        },
        LogEntry {
            term: 2,
            value: "stale-f".into(),
        },
    ];
    let _ = p.handle_message(
        NodeId::new("L2", 1),
        RaftMessage::AppendEntries {
            term: 5,
            leader: NodeId::new("L2", 1),
            prev_log_index: Some(2),
            prev_log_term: 1,
            entries: vec![LogEntry {
                term: 5,
                value: "new-d".into(),
            }],
            leader_commit: None,
        },
        NOW,
    );
    // Verified through index 3 (prev=2 + 1 new entry); indices 4, 5 truncated.
    assert_eq!(p.log.len(), 4);
    assert_eq!(p.log[3].term, 5);
    assert_eq!(p.log[3].value, "new-d");
}

#[test]
fn leader_ignores_match_index_past_own_log() {
    // A peer reporting match_index >= self.log.len() must not crash
    // try_advance_commit. The leader simply ignores the response.
    let me = NodeId::new("a", 1);
    let b = NodeId::new("b", 1);
    let mut p = raft(me.clone(), 3, RaftConfig::default());
    p.role = Role::Leader;
    p.current_term = 1;
    p.leader = Some(me.clone());
    // No log entries, but peer claims match_index = u64::MAX.
    let out = p.handle_message(
        b.clone(),
        RaftMessage::AppendEntriesResponse {
            term: 1,
            success: true,
            match_index: Some(u64::MAX),
            conflict_term: None,
            conflict_index: None,
        },
        NOW,
    );
    assert!(out.is_empty());
    assert_eq!(p.commit_index, None);
    assert!(p.match_index.get(&b) != Some(&Some(u64::MAX)));
}

#[test]
fn leader_rejects_same_term_appendentries_from_other_leader() {
    // An AppendEntries arriving in the same term while we are also
    // Leader is an Election Safety violation. Reject without truncating.
    let me = NodeId::new("a", 1);
    let other = NodeId::new("rogue", 1);
    let mut p = raft(me.clone(), 3, RaftConfig::default());
    p.role = Role::Leader;
    p.current_term = 5;
    p.leader = Some(me.clone());
    p.log = vec![LogEntry {
        term: 5,
        value: "ours".into(),
    }];
    let out = p.handle_message(
        other.clone(),
        RaftMessage::AppendEntries {
            term: 5,
            leader: other.clone(),
            prev_log_index: None,
            prev_log_term: 0,
            entries: vec![LogEntry {
                term: 5,
                value: "theirs".into(),
            }],
            leader_commit: None,
        },
        NOW,
    );
    // Still leader, log untouched.
    assert!(matches!(p.role, Role::Leader));
    assert_eq!(p.log.len(), 1);
    assert_eq!(p.log[0].value, "ours");
    // Response is a rejection.
    match &out[0].message {
        RaftMessage::AppendEntriesResponse {
            success: false,
            term: 5,
            ..
        } => {}
        other => panic!("expected rejection, got {:?}", other),
    }
}

#[test]
fn re_election_drains_pending_proposals_to_lost() {
    // When a candidate's election times out without quorum, buffered
    // proposals are surfaced to lost_proposals so the Node can re-route.
    let mut p = raft(NodeId::new("a", 1), 5, RaftConfig::default());
    let _ = p.propose("x".into(), NOW);
    let _ = p.propose("y".into(), NOW);
    assert_eq!(p.pending_proposals.len(), 2);
    // First election: Follower → Candidate. Pending proposals retained.
    p.election_deadline = NOW - 1;
    let _ = p.on_tick(NOW);
    assert!(matches!(p.role, Role::Candidate));
    assert_eq!(p.pending_proposals.len(), 2);
    // Second election (still no quorum): Candidate → Candidate.
    // Pending proposals drained to lost_proposals.
    p.election_deadline = NOW - 1;
    let _ = p.on_tick(NOW);
    assert!(matches!(p.role, Role::Candidate));
    assert!(p.pending_proposals.is_empty());
    let lost = p.take_lost_proposals();
    assert_eq!(lost, vec!["x".to_string(), "y".to_string()]);
    // Subsequent take returns empty.
    assert!(
        p.take_lost_proposals()
            .is_empty()
    );
}

#[test]
fn forward_chain_drops_after_max_hops() {
    // A Forward arriving with hops near the cap is dropped instead of
    // re-forwarded indefinitely.
    let mut p = raft(NodeId::new("a", 1), 3, RaftConfig::default());
    let leader = NodeId::new("c", 1);
    // Establish that we know c is the leader.
    let _ = p.handle_message(
        leader.clone(),
        RaftMessage::AppendEntries {
            term: 1,
            leader: leader.clone(),
            prev_log_index: None,
            prev_log_term: 0,
            entries: vec![],
            leader_commit: None,
        },
        NOW,
    );
    // A Forward that would chain to MAX_FORWARD_HOPS or higher must be dropped.
    let out = p.handle_message(
        NodeId::new("b", 1),
        RaftMessage::Forward {
            value: "ttl".into(),
            hops: MAX_FORWARD_HOPS - 1,
        },
        NOW,
    );
    assert!(out.is_empty(), "Forward at TTL should be dropped");
    assert!(p.pending_proposals.is_empty());
}

#[test]
fn forward_chain_increments_hops_below_max() {
    // A Forward below the hop cap is re-forwarded with hops + 1.
    let mut p = raft(NodeId::new("a", 1), 3, RaftConfig::default());
    let leader = NodeId::new("c", 1);
    let _ = p.handle_message(
        leader.clone(),
        RaftMessage::AppendEntries {
            term: 1,
            leader: leader.clone(),
            prev_log_index: None,
            prev_log_term: 0,
            entries: vec![],
            leader_commit: None,
        },
        NOW,
    );
    let out = p.handle_message(
        NodeId::new("b", 1),
        RaftMessage::Forward {
            value: "relay".into(),
            hops: 1,
        },
        NOW,
    );
    let forwarded = out.iter().find_map(|o| match (&o.target, &o.message) {
        (SendTarget::Peer(t), RaftMessage::Forward { value, hops }) if t == &leader => {
            Some((value.clone(), *hops))
        }
        _ => None,
    });
    assert_eq!(forwarded, Some(("relay".into(), 2)));
}

#[test]
fn commit_index_persists_when_advanced() {
    // Every commit_index advance flags pending_persist_commit_index;
    // drain_persist_intent surfaces it for flush_persist to write through.
    let mut p = raft(NodeId::new("f", 1), 3, RaftConfig::default());
    p.current_term = 1;
    let leader = NodeId::new("L", 1);
    let _ = p.handle_message(
        leader.clone(),
        RaftMessage::AppendEntries {
            term: 1,
            leader: leader.clone(),
            prev_log_index: None,
            prev_log_term: 0,
            entries: vec![LogEntry {
                term: 1,
                value: "v0".into(),
            }],
            leader_commit: Some(0),
        },
        NOW,
    );
    assert_eq!(p.commit_index, Some(0));
    let intent = p.drain_persist_intent();
    assert_eq!(intent.commit_index, Some(Some(0)));
    // Idempotent — a second drain returns no commit_index intent.
    let intent2 = p.drain_persist_intent();
    assert_eq!(intent2.commit_index, None);
}

#[test]
fn restore_state_uses_max_of_persisted_and_decisions() {
    // Recovery reconciles persisted commit_index with the highest
    // decided slot, taking the max so a crash mid-write doesn't roll
    // commit_index back below an already-delivered decision.
    let mut p = raft(NodeId::new("a", 1), 3, RaftConfig::default());
    let log = (0..5)
        .map(|i| LogEntry {
            term: 1,
            value: format!("v{i}"),
        })
        .collect();
    p.restore_state(
        1,
        None,
        log,
        // Decisions cover slots 0..=2.
        vec![(0, "v0".into()), (1, "v1".into()), (2, "v2".into())],
        // But commit_index was persisted as 4 — so two extra slots were
        // committed by the cluster but not yet saved to decisions.
        Some(4),
        NOW,
    );
    assert_eq!(p.commit_index, Some(4));
    // last_applied is the decisions floor; on the next event-loop tick,
    // apply_committed_entries will deliver slots 3 and 4 (at-least-once).
    assert_eq!(p.last_applied, Some(2));
}

#[test]
fn what_a_restart_left_committed_is_delivered_at_the_next_tick() {
    let mut p = raft(NodeId::new("a", 1), 3, RaftConfig::default());
    let log = (0..5)
        .map(|i| LogEntry {
            term: 1,
            value: format!("v{i}"),
        })
        .collect();
    p.restore_state(
        1,
        None,
        log,
        vec![(0, "v0".into()), (1, "v1".into()), (2, "v2".into())],
        Some(4),
        NOW,
    );
    assert!(p.take_decisions().is_empty());
    assert!(p.on_tick(NOW).is_empty());
    let delivered: Vec<(u64, String)> = p
        .take_decisions()
        .into_iter()
        .map(|d| (d.slot, d.value))
        .collect();
    assert_eq!(
        delivered,
        vec![(3, "v3".to_string()), (4, "v4".to_string())]
    );
    assert_eq!(p.last_applied, Some(4));
    let _ = p.on_tick(NOW);
    assert!(p.take_decisions().is_empty());
}

#[test]
fn restore_state_caps_persisted_commit_index_at_log_end() {
    // A corrupted backing store reporting commit_index past
    // the end of the log must not panic apply_committed_entries.
    let mut p = raft(NodeId::new("a", 1), 3, RaftConfig::default());
    p.restore_state(
        1,
        None,
        vec![LogEntry {
            term: 1,
            value: "only".into(),
        }],
        vec![],
        Some(99),
        NOW,
    );
    assert_eq!(p.commit_index, Some(0));
}

#[test]
fn single_node_resume_seeds_match_index_for_self() {
    // A single-node cluster resuming as leader after restart must
    // seed match_index[self] so try_advance_commit operates correctly.
    let me = NodeId::new("solo", 1);
    let mut p = raft(me.clone(), 1, RaftConfig::default());
    let log = vec![
        LogEntry {
            term: 1,
            value: "a".into(),
        },
        LogEntry {
            term: 1,
            value: "b".into(),
        },
    ];
    p.restore_state(1, Some(me.clone()), log, vec![(0, "a".into())], None, NOW);
    assert!(matches!(p.role, Role::Leader));
    assert_eq!(p.match_index.get(&me).copied(), Some(Some(1)));
}

#[test]
fn become_follower_clears_pending_persist_log_from() {
    // A leader that stepped down (e.g., via term-bump) must not carry
    // its leader-side persistence intent into follower state. The
    // entries themselves stay in self.log; if a new leader's AE
    // conflicts they get truncated, otherwise re-flagged when verified.
    let me = NodeId::new("a", 1);
    let mut p = raft(me.clone(), 3, RaftConfig::default());
    p.role = Role::Leader;
    p.current_term = 3;
    p.leader = Some(me.clone());
    p.log.push(LogEntry {
        term: 3,
        value: "x".into(),
    });
    p.pending_persist_log_from = Some(0);
    // Step down via a higher-term message.
    p.become_follower(5, None, NOW, 200);
    assert!(matches!(p.role, Role::Follower));
    assert!(
        p.pending_persist_log_from.is_none(),
        "leader-side persistence intent should be cleared on step-down"
    );
}

#[test]
fn follower_reports_conflict_index_on_log_gap() {
    let mut p = raft(NodeId::new("a", 1), 3, RaftConfig::default());
    p.current_term = 5;
    let out = p.handle_message(
        NodeId::new("b", 1),
        RaftMessage::AppendEntries {
            term: 5,
            leader: NodeId::new("b", 1),
            prev_log_index: Some(3), // gap: our log is empty, claimed prior at index 3
            prev_log_term: 2,
            entries: vec![],
            leader_commit: None,
        },
        NOW,
    );
    match &out[0].message {
        RaftMessage::AppendEntriesResponse {
            success: false,
            conflict_term: None,     // we have no entry at that position
            conflict_index: Some(0), // resume from start
            ..
        } => {}
        other => panic!("expected reject with conflict_index hint, got {:?}", other),
    }
}

#[test]
fn follower_reports_conflict_term_on_term_mismatch_at_prev() {
    let mut p = raft(NodeId::new("a", 1), 3, RaftConfig::default());
    p.current_term = 5;
    p.log = vec![
        LogEntry {
            term: 1,
            value: "a".into(),
        },
        LogEntry {
            term: 2,
            value: "b".into(),
        },
        LogEntry {
            term: 2,
            value: "c".into(),
        },
    ];
    let out = p.handle_message(
        NodeId::new("b", 1),
        RaftMessage::AppendEntries {
            term: 5,
            leader: NodeId::new("b", 1),
            prev_log_index: Some(2),
            prev_log_term: 4, // mismatch: ours at idx 2 has term 2
            entries: vec![],
            leader_commit: None,
        },
        NOW,
    );
    match &out[0].message {
        RaftMessage::AppendEntriesResponse {
            success: false,
            conflict_term: Some(2),
            conflict_index: Some(1), // first index of term 2 in our log
            ..
        } => {}
        other => panic!("expected reject with conflict hints, got {:?}", other),
    }
}

#[test]
fn leader_uses_conflict_index_to_rewind_next_index_in_one_step() {
    let me = NodeId::new("a", 1);
    let b = NodeId::new("b", 1);
    let mut p = raft(me.clone(), 3, RaftConfig::default());
    p.role = Role::Leader;
    p.current_term = 5;
    p.leader = Some(me.clone());
    p.log = (0..10)
        .map(|i| LogEntry {
            term: 5,
            value: format!("v{}", i),
        })
        .collect();
    p.next_index.insert(b.clone(), 9);
    let out = p.handle_message(
        b.clone(),
        RaftMessage::AppendEntriesResponse {
            term: 5,
            success: false,
            match_index: None,
            conflict_term: None,
            conflict_index: Some(2),
        },
        NOW,
    );
    assert_eq!(p.next_index.get(&b), Some(&2));
    match &out[0].message {
        RaftMessage::AppendEntries {
            prev_log_index: Some(1),
            entries,
            ..
        } => {
            assert_eq!(entries.len(), 8); // indices 2..=9
        }
        other => panic!("expected re-send from index 2, got {:?}", other),
    }
}

#[test]
fn leader_uses_conflict_term_to_skip_shared_prefix() {
    let me = NodeId::new("a", 1);
    let b = NodeId::new("b", 1);
    let mut p = raft(me.clone(), 3, RaftConfig::default());
    p.role = Role::Leader;
    p.current_term = 7;
    p.leader = Some(me.clone());
    p.log = vec![
        LogEntry {
            term: 1,
            value: "a".into(),
        },
        LogEntry {
            term: 1,
            value: "b".into(),
        },
        LogEntry {
            term: 1,
            value: "c".into(),
        },
        LogEntry {
            term: 7,
            value: "d".into(),
        },
        LogEntry {
            term: 7,
            value: "e".into(),
        },
    ];
    p.next_index.insert(b.clone(), 5);
    let out = p.handle_message(
        b.clone(),
        RaftMessage::AppendEntriesResponse {
            term: 7,
            success: false,
            match_index: None,
            conflict_term: Some(1),
            conflict_index: Some(0),
        },
        NOW,
    );
    assert_eq!(p.next_index.get(&b), Some(&3));
    match &out[0].message {
        RaftMessage::AppendEntries {
            prev_log_index: Some(2),
            entries,
            ..
        } => {
            assert_eq!(entries.len(), 2);
        }
        other => panic!("expected re-send from index 3, got {:?}", other),
    }
}

#[test]
fn drain_persist_intent_returns_pending_state_and_clears_flags() {
    let mut p = raft(NodeId::new("a", 1), 3, RaftConfig::default());
    p.current_term = 5;
    p.voted_for = Some(NodeId::new("b", 1));
    p.log = vec![
        LogEntry {
            term: 5,
            value: "x".into(),
        },
        LogEntry {
            term: 5,
            value: "y".into(),
        },
    ];
    p.pending_persist_term = true;
    p.pending_persist_voted_for = true;
    p.pending_persist_log_from = Some(1);
    p.pending_truncate_from = Some(1);

    let intent = p.drain_persist_intent();
    assert_eq!(intent.term, Some(5));
    assert_eq!(intent.voted_for, Some(Some(NodeId::new("b", 1))));
    assert_eq!(intent.truncate_from, Some(1));
    assert_eq!(intent.append_from, Some(1));
    assert_eq!(intent.log_snapshot.len(), 2);
    assert!(!p.pending_persist_term);
    assert!(!p.pending_persist_voted_for);
    assert!(p.pending_persist_log_from.is_none());
    assert!(p.pending_truncate_from.is_none());
}

#[test]
fn drain_persist_intent_returns_empty_when_no_pending() {
    let mut p = raft(NodeId::new("a", 1), 3, RaftConfig::default());
    let intent = p.drain_persist_intent();
    assert!(intent.term.is_none());
    assert!(intent.voted_for.is_none());
    assert!(intent.truncate_from.is_none());
    assert!(intent.append_from.is_none());
    assert!(intent.log_snapshot.is_empty());
}

#[test]
fn recover_loads_state_correctly() {
    let mut p = raft(NodeId::new("a", 1), 3, RaftConfig::default());
    p.restore_state(
        7,
        Some(NodeId::new("b", 1)),
        vec![
            LogEntry {
                term: 5,
                value: "x".into(),
            },
            LogEntry {
                term: 7,
                value: "y".into(),
            },
        ],
        vec![(0, "x".into())],
        None,
        NOW,
    );
    assert_eq!(p.current_term, 7);
    assert_eq!(p.voted_for, Some(NodeId::new("b", 1)));
    assert_eq!(p.log.len(), 2);
    assert_eq!(p.log[0].term, 5);
    assert_eq!(p.log[1].term, 7);
    assert_eq!(p.commit_index, Some(0));
    assert_eq!(p.last_applied, Some(0));
    assert!(matches!(p.role, Role::Follower));
    assert!(!p.pending_persist_term);
    assert!(!p.pending_persist_voted_for);
    assert!(p.pending_persist_log_from.is_none());
    assert!(p.pending_truncate_from.is_none());
}

#[test]
fn recover_with_no_decisions_leaves_commit_index_none() {
    let mut p = raft(NodeId::new("a", 1), 3, RaftConfig::default());
    p.restore_state(
        2,
        None,
        vec![LogEntry {
            term: 2,
            value: "x".into(),
        }],
        vec![],
        None,
        NOW,
    );
    assert_eq!(p.current_term, 2);
    assert!(p.voted_for.is_none());
    assert_eq!(p.log.len(), 1);
    assert_eq!(p.commit_index, None);
    assert_eq!(p.last_applied, None);
}

#[test]
fn follower_forwards_proposal_to_known_leader() {
    let mut p = raft(NodeId::new("a", 1), 3, RaftConfig::default());
    let leader = NodeId::new("b", 1);
    // Receive an AppendEntries from a leader to set p.leader.
    let _ = p.handle_message(
        leader.clone(),
        RaftMessage::AppendEntries {
            term: 1,
            leader: leader.clone(),
            prev_log_index: None,
            prev_log_term: 0,
            entries: vec![],
            leader_commit: None,
        },
        NOW,
    );
    assert_eq!(p.leader, Some(leader.clone()));

    let out =
        p.propose("hello".into(), NOW);
    assert_eq!(out.len(), 1);
    match (&out[0].target, &out[0].message) {
        (SendTarget::Peer(t), RaftMessage::Forward { value, hops }) => {
            assert_eq!(t, &leader);
            assert_eq!(value, "hello");
            assert_eq!(*hops, 0);
        }
        (_, msg) => panic!("expected Forward to leader, got message {:?}", msg),
    }
    assert!(p.pending_proposals.is_empty());
}

#[test]
fn follower_buffers_proposal_when_no_leader_known() {
    let mut p = raft(NodeId::new("a", 1), 3, RaftConfig::default());
    assert!(p.leader.is_none());
    let out =
        p.propose("hello".into(), NOW);
    assert!(out.is_empty());
    assert_eq!(p.pending_proposals.len(), 1);
    assert_eq!(p.pending_proposals[0], "hello");
}

#[test]
fn leader_handles_forwarded_proposal_as_normal_propose() {
    let me = NodeId::new("a", 1);
    let mut p = raft(me.clone(), 3, RaftConfig::default());
    p.role = Role::Leader;
    p.current_term = 1;
    p.leader = Some(me.clone());
    let _ = p.handle_message(
        NodeId::new("b", 1),
        RaftMessage::Forward {
            value: "from-b".into(),
            hops: 0,
        },
        NOW,
    );
    assert_eq!(p.log.len(), 1);
    assert_eq!(p.log[0].value, "from-b");
}

#[test]
fn pending_proposals_drained_as_forwards_when_leader_learned() {
    let mut p = raft(NodeId::new("a", 1), 3, RaftConfig::default());
    let _ =
        p.propose("buffered".into(), NOW);
    assert_eq!(p.pending_proposals.len(), 1);
    let leader = NodeId::new("b", 1);
    let out = p.handle_message(
        leader.clone(),
        RaftMessage::AppendEntries {
            term: 1,
            leader: leader.clone(),
            prev_log_index: None,
            prev_log_term: 0,
            entries: vec![],
            leader_commit: None,
        },
        NOW,
    );
    assert!(p.pending_proposals.is_empty());
    // Out should contain the AER + a Forward
    let has_forward = out.iter().any(|o| {
        matches!(&o.message, RaftMessage::Forward { value, hops: 0 } if value == "buffered")
    });
    assert!(has_forward, "expected buffered proposal to be forwarded");
}

#[test]
fn non_leader_buffers_received_forward_when_no_leader_known() {
    let mut p = raft(NodeId::new("a", 1), 3, RaftConfig::default());
    // p.role is Follower, p.leader is None
    let out = p.handle_message(
        NodeId::new("b", 1),
        RaftMessage::Forward {
            value: "x".into(),
            hops: 0,
        },
        NOW,
    );
    assert!(out.is_empty());
    assert!(p.log.is_empty());
    assert_eq!(p.pending_proposals, vec!["x".to_string()]);
}

#[test]
fn non_leader_chain_forwards_received_forward_to_known_leader() {
    let mut p = raft(NodeId::new("a", 1), 3, RaftConfig::default());
    let leader = NodeId::new("c", 1);
    // Establish that we know c is the leader.
    let _ = p.handle_message(
        leader.clone(),
        RaftMessage::AppendEntries {
            term: 1,
            leader: leader.clone(),
            prev_log_index: None,
            prev_log_term: 0,
            entries: vec![],
            leader_commit: None,
        },
        NOW,
    );
    // A different peer (b) forwards to us; we should chain-forward to c.
    let out = p.handle_message(
        NodeId::new("b", 1),
        RaftMessage::Forward {
            value: "relay".into(),
            hops: 0,
        },
        NOW,
    );
    assert!(p.pending_proposals.is_empty());
    let forward_to_leader = out.iter().any(|o| {
        matches!(&o.target, SendTarget::Peer(t) if t == &leader)
            && matches!(&o.message, RaftMessage::Forward { value, hops: 1 } if value == "relay")
    });
    assert!(forward_to_leader, "expected chain-forward to known leader");
}

#[test]
fn non_leader_buffers_forward_when_sender_is_believed_leader() {
    let mut p = raft(NodeId::new("a", 1), 3, RaftConfig::default());
    let b = NodeId::new("b", 1);
    // Let p believe b is leader.
    let _ = p.handle_message(
        b.clone(),
        RaftMessage::AppendEntries {
            term: 1,
            leader: b.clone(),
            prev_log_index: None,
            prev_log_term: 0,
            entries: vec![],
            leader_commit: None,
        },
        NOW,
    );
    // b now forwards to us — which would imply b stepped down. Avoid the
    // ping-pong loop by buffering instead of forwarding back to b.
    let out = p.handle_message(
        b.clone(),
        RaftMessage::Forward {
            value: "loop-guard".into(),
            hops: 0,
        },
        NOW,
    );
    assert!(out.is_empty());
    assert_eq!(p.pending_proposals, vec!["loop-guard".to_string()]);
}

#[test]
fn single_node_raft_starts_as_follower_with_zero_term() {
    let p = raft(NodeId::new("solo", 1), 1, RaftConfig::default());
    assert!(matches!(p.role, Role::Follower));
    assert_eq!(p.current_term, 0);
    assert!(p.voted_for.is_none());
    assert!(p.leader.is_none());
    assert!(!p.pending_persist_term);
    assert!(!p.pending_persist_voted_for);
}

#[test]
fn single_node_raft_commits_after_solo_election() {
    let mut p = raft(NodeId::new("solo", 1), 1, RaftConfig::default());
    let _ =
        p.propose("hello".into(), NOW);
    assert!(matches!(p.role, Role::Follower));
    assert_eq!(p.pending_proposals, vec!["hello".to_string()]);
    p.election_deadline = NOW - 1;
    let _ = p.on_tick(NOW);
    assert!(matches!(p.role, Role::Leader));
    assert_eq!(p.current_term, 1);
    assert_eq!(p.commit_index, Some(0));
    let decisions = p.take_decisions();
    assert_eq!(decisions.len(), 1);
    assert_eq!(decisions[0].slot, 0);
    assert_eq!(decisions[0].value, "hello");
}

#[test]
fn three_node_raft_does_not_commit_immediately_on_propose() {
    let mut p = raft(NodeId::new("a", 1), 3, RaftConfig::default());
    p.role = Role::Leader;
    p.current_term = 1;
    p.leader = Some(p.node_id.clone());
    let _ =
        p.propose("hello".into(), NOW);
    // Quorum (2 of 3) not yet reached; only self matches.
    assert_eq!(p.commit_index, None);
    assert!(p.take_decisions().is_empty());
}

#[test]
fn buffered_proposals_drain_when_self_becomes_leader() {
    let me = NodeId::new("a", 1);
    let mut p = raft(me.clone(), 3, RaftConfig::default());
    // Buffer two proposals while no leader is known.
    let _ = p.propose("x".into(), NOW);
    let _ = p.propose("y".into(), NOW);
    assert_eq!(p.pending_proposals.len(), 2);
    // Trigger an election.
    p.election_deadline = NOW - 1;
    let _ = p.on_tick(NOW);
    assert!(matches!(p.role, Role::Candidate));
    // Receive a yes vote from one peer (with self = quorum on 3-node).
    let out = p.handle_message(
        NodeId::new("b", 1),
        RaftMessage::RequestVoteResponse {
            term: 1,
            vote_granted: true,
        },
        NOW,
    );
    assert!(matches!(p.role, Role::Leader));
    // Buffered proposals should have been drained into the log.
    assert!(p.pending_proposals.is_empty());
    assert_eq!(p.log.len(), 2);
    assert_eq!(p.log[0].value, "x");
    assert_eq!(p.log[1].value, "y");
    // The outgoing message should be an AppendEntries carrying the two new entries.
    assert_eq!(out.len(), 1);
    match &out[0].message {
        RaftMessage::AppendEntries { entries, .. } => {
            assert_eq!(entries.len(), 2);
            assert_eq!(entries[0].value, "x");
            assert_eq!(entries[1].value, "y");
        }
        _ => panic!("expected AppendEntries with buffered entries"),
    }
}

#[test]
fn leader_falls_back_to_decrement_when_no_conflict_index_hint() {
    let me = NodeId::new("a", 1);
    let b = NodeId::new("b", 1);
    let mut p = raft(me.clone(), 3, RaftConfig::default());
    p.role = Role::Leader;
    p.current_term = 5;
    p.leader = Some(me.clone());
    p.log = (0..5)
        .map(|i| LogEntry {
            term: 5,
            value: format!("v{}", i),
        })
        .collect();
    p.next_index.insert(b.clone(), 5);
    let _ = p.handle_message(
        b.clone(),
        RaftMessage::AppendEntriesResponse {
            term: 5,
            success: false,
            match_index: None,
            conflict_term: None,
            conflict_index: None,
        },
        NOW,
    );
    assert_eq!(p.next_index.get(&b), Some(&4));
}

#[test]
fn leader_does_not_heartbeat_within_interval() {
    let me = NodeId::new("a", 1);
    let mut p = raft(me.clone(), 3, RaftConfig::default());
    p.role = Role::Leader;
    p.current_term = 1;
    p.leader = Some(me.clone());
    p.last_heartbeat_sent = Some(NOW);
    let out = p.on_tick(NOW);
    assert!(
        out.is_empty(),
        "leader should suppress heartbeat within interval"
    );
}

#[test]
fn granting_vote_resets_election_deadline() {
    let mut p = raft(NodeId::new("a", 1), 3, RaftConfig::default());
    let earlier = NOW - 1000;
    p.election_deadline = earlier;
    let candidate = NodeId::new("b", 1);
    let _ = p.handle_message(
        candidate.clone(),
        RaftMessage::RequestVote {
            term: 5,
            candidate,
            last_log_index: None,
            last_log_term: 0,
        },
        NOW,
    );
    assert!(
        p.election_deadline > earlier,
        "deadline should be reset after granting vote"
    );
}

#[test]
fn append_entries_with_conflict_yields_truncate_and_append_intent() {
    let mut p = raft(NodeId::new("a", 1), 3, RaftConfig::default());
    p.current_term = 2;
    p.log = vec![
        LogEntry {
            term: 1,
            value: "a".into(),
        },
        LogEntry {
            term: 1,
            value: "stale".into(),
        },
    ];
    let _ = p.handle_message(
        NodeId::new("b", 1),
        RaftMessage::AppendEntries {
            term: 2,
            leader: NodeId::new("b", 1),
            prev_log_index: Some(0),
            prev_log_term: 1,
            entries: vec![LogEntry {
                term: 2,
                value: "fresh".into(),
            }],
            leader_commit: None,
        },
        NOW,
    );
    let intent = p.drain_persist_intent();
    assert_eq!(intent.truncate_from, Some(1));
    assert_eq!(intent.append_from, Some(1));
    assert_eq!(intent.log_snapshot.len(), 2);
    assert_eq!(intent.log_snapshot[1].value, "fresh");
}

#[test]
fn recover_with_partial_decisions_sets_commit_index_correctly() {
    let mut p = raft(NodeId::new("a", 1), 3, RaftConfig::default());
    let log = (0..5)
        .map(|i| LogEntry {
            term: 1,
            value: format!("v{i}"),
        })
        .collect();
    p.restore_state(
        1,
        None,
        log,
        vec![(0, "v0".into()), (1, "v1".into()), (2, "v2".into())],
        None,
        NOW,
    );
    assert_eq!(p.commit_index, Some(2));
    assert_eq!(p.last_applied, Some(2));
    assert!(p.take_decisions().is_empty());
    let _ = p.on_tick(NOW);
    assert!(p.take_decisions().is_empty());
}

#[test]
fn is_idle_false_when_leader() {
    let me = NodeId::new("a", 1);
    let mut p = raft(me.clone(), 3, RaftConfig::default());
    p.role = Role::Leader;
    p.leader = Some(me);
    assert!(!p.is_idle(), "leader is never idle");
}

#[test]
fn is_idle_false_when_pending_proposals() {
    let mut p = raft(NodeId::new("a", 1), 3, RaftConfig::default());
    p.pending_proposals.push("x".into());
    assert!(!p.is_idle());
}

#[test]
fn is_idle_false_when_log_nonempty() {
    let mut p = raft(NodeId::new("a", 1), 3, RaftConfig::default());
    p.log.push(LogEntry {
        term: 1,
        value: "x".into(),
    });
    assert!(!p.is_idle());
}

#[test]
fn conflict_hint_uses_first_index_of_term() {
    let mut p = raft(NodeId::new("a", 1), 3, RaftConfig::default());
    p.current_term = 5;
    p.log = vec![
        LogEntry {
            term: 1,
            value: "a".into(),
        },
        LogEntry {
            term: 1,
            value: "b".into(),
        },
        LogEntry {
            term: 2,
            value: "c".into(),
        },
        LogEntry {
            term: 2,
            value: "d".into(),
        },
        LogEntry {
            term: 3,
            value: "e".into(),
        },
    ];
    let out = p.handle_message(
        NodeId::new("b", 1),
        RaftMessage::AppendEntries {
            term: 5,
            leader: NodeId::new("b", 1),
            prev_log_index: Some(4),
            prev_log_term: 99,
            entries: vec![],
            leader_commit: None,
        },
        NOW,
    );
    match &out[0].message {
        RaftMessage::AppendEntriesResponse {
            success: false,
            conflict_term: Some(3),
            conflict_index: Some(4),
            ..
        } => {}
        other => panic!(
            "expected conflict_term=Some(3), conflict_index=Some(4); got {:?}",
            other
        ),
    }
}

#[test]
fn leader_does_not_advance_commit_past_log_end() {
    let me = NodeId::new("a", 1);
    let b = NodeId::new("b", 1);
    let mut p = raft(me.clone(), 3, RaftConfig::default());
    p.role = Role::Leader;
    p.current_term = 1;
    p.leader = Some(me.clone());
    p.log.push(LogEntry {
        term: 1,
        value: "x".into(),
    });
    p.match_index.insert(me.clone(), Some(0));
    let _ = p.handle_message(
        b,
        RaftMessage::AppendEntriesResponse {
            term: 1,
            success: true,
            match_index: Some(99),
            conflict_term: None,
            conflict_index: None,
        },
        NOW,
    );
    assert!(p.commit_index.is_none() || p.commit_index.unwrap() < p.log.len() as u64);
}

#[test]
fn single_node_raft_no_persist_intent_until_election() {
    let mut p = raft(NodeId::new("solo", 1), 1, RaftConfig::default());
    let intent = p.drain_persist_intent();
    assert!(intent.term.is_none());
    assert!(intent.voted_for.is_none());
    p.election_deadline = NOW - 1;
    let _ = p.on_tick(NOW);
    let intent = p.drain_persist_intent();
    assert_eq!(intent.term, Some(1));
    assert_eq!(intent.voted_for, Some(Some(p.node_id.clone())));
}

#[test]
fn single_node_recover_from_empty_storage_starts_as_follower() {
    let me = NodeId::new("solo", 1);
    let mut p = raft(me.clone(), 1, RaftConfig::default());
    p.restore_state(0, None, Vec::new(), Vec::new(), None, NOW);
    assert!(matches!(p.role, Role::Follower));
    assert_eq!(p.current_term, 0);
    assert!(p.voted_for.is_none());
    assert!(p.leader.is_none());
    let intent = p.drain_persist_intent();
    assert!(intent.term.is_none());
    assert!(intent.voted_for.is_none());
}

#[test]
fn single_node_recover_preserves_persisted_term_and_log() {
    let me = NodeId::new("solo", 1);
    let mut p = raft(me.clone(), 1, RaftConfig::default());
    let log = vec![LogEntry {
        term: 1,
        value: "x".into(),
    }];
    p.restore_state(1, Some(me.clone()), log, vec![(0, "x".into())], None, NOW);
    assert!(matches!(p.role, Role::Leader));
    assert_eq!(p.current_term, 1);
    assert_eq!(p.commit_index, Some(0));
    assert_eq!(p.last_applied, Some(0));
    // No persist needed — recovered state already matches leader bootstrap.
    let intent = p.drain_persist_intent();
    assert!(intent.term.is_none());
    assert!(intent.voted_for.is_none());
}

#[test]
fn multi_node_recover_resets_to_follower() {
    let me = NodeId::new("a", 1);
    let mut p = raft(me.clone(), 3, RaftConfig::default());
    p.role = Role::Leader;
    p.leader = Some(me.clone());
    p.restore_state(5, Some(me.clone()), Vec::new(), Vec::new(), None, NOW);
    assert!(matches!(p.role, Role::Follower));
    assert_eq!(p.leader, None);
    assert_eq!(p.current_term, 5);
}

#[test]
fn old_leader_after_term_bump_chain_forwards() {
    let me = NodeId::new("a", 1);
    let mut p = raft(me.clone(), 3, RaftConfig::default());
    p.role = Role::Leader;
    p.current_term = 5;
    p.leader = Some(me.clone());
    // Step down on a higher-term AppendEntries from b. AE sets leader=b.
    let new_leader = NodeId::new("b", 1);
    let _ = p.handle_message(
        new_leader.clone(),
        RaftMessage::AppendEntries {
            term: 7,
            leader: new_leader.clone(),
            prev_log_index: None,
            prev_log_term: 0,
            entries: vec![],
            leader_commit: None,
        },
        NOW,
    );
    assert!(matches!(p.role, Role::Follower));
    assert_eq!(p.leader, Some(new_leader.clone()));
    // c was holding stale state and forwards to us; we should chain-forward
    // to the leader we now know about (b) rather than silently drop.
    let out = p.handle_message(
        NodeId::new("c", 1),
        RaftMessage::Forward {
            value: "delayed".into(),
            hops: 0,
        },
        NOW,
    );
    assert!(p.log.is_empty());
    let forward_to_b = out.iter().any(|o| {
        matches!(&o.target, SendTarget::Peer(t) if t == &new_leader)
            && matches!(&o.message, RaftMessage::Forward { value, hops: 1 } if value == "delayed")
    });
    assert!(forward_to_b, "expected chain-forward to new leader");
}

#[test]
fn stale_leader_steps_down_on_higher_term_heartbeat() {
    let me = NodeId::new("a", 1);
    let mut old = raft(me.clone(), 3, RaftConfig::default());
    old.role = Role::Leader;
    old.current_term = 3;
    old.voted_for = Some(me.clone());
    old.leader = Some(me.clone());
    let new_leader = NodeId::new("b", 1);
    let _ = old.handle_message(
        new_leader.clone(),
        RaftMessage::AppendEntries {
            term: 5,
            leader: new_leader.clone(),
            prev_log_index: None,
            prev_log_term: 0,
            entries: vec![],
            leader_commit: None,
        },
        NOW,
    );
    assert!(matches!(old.role, Role::Follower));
    assert_eq!(old.current_term, 5);
    assert_eq!(old.leader, Some(new_leader));
}

#[test]
fn peek_state_reports_raft_state() {
    let mut p = raft(NodeId::new("a", 1), 3, RaftConfig::default());
    p.current_term = 4;
    p.log.push(LogEntry {
        term: 4,
        value: "x".into(),
    });
    p.commit_index = Some(0);
    p.last_applied = Some(0);
    let snap = p.peek_state();
    assert_eq!(snap.term, 4);
    assert_eq!(snap.log_len, 1);
    assert_eq!(snap.commit_index, Some(0));
    assert_eq!(snap.last_applied, Some(0));
    assert!(matches!(snap.role, Some(NodeRole::Follower)));
}

fn append(
    term: u64,
    leader: &NodeId,
    prev: Option<(u64, u64)>,
    entries: Vec<(u64, &str)>,
    leader_commit: Option<u64>,
) -> RaftMessage<String> {
    RaftMessage::AppendEntries {
        term,
        leader: leader.clone(),
        prev_log_index: prev.map(|(index, _)| index),
        prev_log_term: prev.map_or(0, |(_, term)| term),
        entries: entries
            .into_iter()
            .map(|(term, value)| LogEntry {
                term,
                value: value.to_string(),
            })
            .collect(),
        leader_commit,
    }
}

#[test]
fn an_overtaken_append_cuts_nothing_off() {
    let mut p = raft(NodeId::new("a", 1), 3, RaftConfig::default());
    let b = NodeId::new("b", 1);
    p.handle_message(b.clone(), append(5, &b, None, vec![(5, "x")], None), NOW);
    let heartbeat = append(5, &b, Some((0, 5)), vec![], None);
    p.handle_message(b.clone(), append(5, &b, Some((0, 5)), vec![(5, "y")], None), NOW);
    p.flush_persist().unwrap();
    assert_eq!(p.log.len(), 2);
    let out = p.handle_message(b.clone(), heartbeat, NOW);
    assert_eq!(p.log.len(), 2);
    assert_eq!(p.pending_truncate_from, None);
    assert!(matches!(
        &out[0].message,
        RaftMessage::AppendEntriesResponse { success: true, match_index: Some(0), .. }
    ));
    // What an older term left behind goes.
    p.handle_message(b.clone(), append(6, &b, Some((0, 5)), vec![], None), NOW);
    assert_eq!(p.log.len(), 1);
    assert_eq!(p.pending_truncate_from, Some(1));
}

#[test]
fn an_append_delivered_twice_changes_nothing() {
    let mut p = raft(NodeId::new("a", 1), 3, RaftConfig::default());
    let b = NodeId::new("b", 1);
    let entries = vec![(1, "x"), (2, "y")];
    let first = p.handle_message(b.clone(), append(2, &b, None, entries.clone(), Some(0)), NOW);
    assert_eq!(first.len(), 1);
    let log = p.log.clone();
    let marks = (
        p.pending_persist_log_from,
        p.pending_truncate_from,
        p.pending_persist_commit_index,
    );
    let second = p.handle_message(b.clone(), append(2, &b, None, entries, Some(0)), NOW + 5);
    assert_eq!(second.len(), 1);
    assert!(matches!(
        (&first[0].message, &second[0].message),
        (
            RaftMessage::AppendEntriesResponse { term: 2, success: true, match_index: Some(1), .. },
            RaftMessage::AppendEntriesResponse { term: 2, success: true, match_index: Some(1), .. },
        )
    ));
    assert_eq!(p.log, log);
    assert_eq!(
        marks,
        (
            p.pending_persist_log_from,
            p.pending_truncate_from,
            p.pending_persist_commit_index,
        )
    );
    assert_eq!((p.current_term, p.commit_index, p.last_applied), (2, Some(0), Some(0)));
    assert_eq!(p.take_decisions().len(), 1);
}

#[test]
fn a_vote_is_repeated_for_its_candidate_only() {
    let mut p = raft(NodeId::new("a", 1), 3, RaftConfig::default());
    let ask = |p: &mut RaftProtocol<String, RaftMemoryStorage<String>>, name: &str| {
        let candidate = NodeId::new(name, 1);
        let out = p.handle_message(
            candidate.clone(),
            RaftMessage::RequestVote {
                term: 4,
                candidate,
                last_log_index: None,
                last_log_term: 0,
            },
            NOW,
        );
        match &out[0].message {
            RaftMessage::RequestVoteResponse { term: 4, vote_granted } => *vote_granted,
            _ => panic!("expected an answer of term 4"),
        }
    };
    assert!(ask(&mut p, "b"));
    assert!(!ask(&mut p, "c"));
    assert_eq!(p.voted_for, Some(NodeId::new("b", 1)));
    assert!(ask(&mut p, "b"));
    assert_eq!(p.voted_for, Some(NodeId::new("b", 1)));
}

#[test]
fn the_append_handler_is_idempotent() {
    let mut p = raft(NodeId::new("a", 1), 3, RaftConfig::default());
    let b = NodeId::new("b", 1);
    let handle = |p: &mut RaftProtocol<String, RaftMemoryStorage<String>>, now: u64| {
        let entries = vec![LogEntry { term: 3, value: "x".to_string() }];
        p.handle_append_entries(3, b.clone(), None, 0, entries, Some(0), now, 150)
    };
    p.current_term = 3;
    let first = handle(&mut p, NOW);
    let log = p.log.clone();
    assert_eq!(p.election_deadline, NOW + 150);
    let second = handle(&mut p, NOW + 7);
    assert_eq!(p.log, log);
    assert_eq!(p.election_deadline, NOW + 157);
    assert_eq!((first.len(), second.len()), (1, 1));
    for out in [&first, &second] {
        assert!(matches!(
            &out[0].message,
            RaftMessage::AppendEntriesResponse { term: 3, success: true, match_index: Some(0), .. }
        ));
    }
    assert_eq!(p.take_decisions().len(), 1);
}

#[test]
fn the_vote_handler_holds_to_its_vote() {
    let mut p = raft(NodeId::new("a", 1), 3, RaftConfig::default());
    let mut ask = |name: &str| {
        let out = p.handle_request_vote(0, NodeId::new(name, 1), None, 0, NOW, 150);
        match &out[0].message {
            RaftMessage::RequestVoteResponse { vote_granted, .. } => *vote_granted,
            _ => panic!("expected an answer"),
        }
    };
    assert!(ask("b"));
    assert!(!ask("c"));
    assert!(ask("b"));
}

/// A storage in which one of the writes fails.
struct Faulty {
    inner: RaftMemoryStorage<String>,
    fails: &'static str,
}

impl Faulty {
    fn check(&self, write: &str) -> Result<(), StorageError> {
        if self.fails == write {
            return Err(StorageError::Persist(write.to_string()));
        }
        Ok(())
    }
}

impl RaftStorage<String> for Faulty {
    fn stored(&self) -> RaftStored<Model<String>> {
        unreachable!("what is stored is for proofs only")
    }

    fn save_decision(&mut self, slot: u64, value: String) -> Result<(), StorageError> {
        self.check("decision")?;
        self.inner.save_decision(slot, value)
    }

    fn load_decisions(&self) -> Result<Vec<(u64, String)>, StorageError> {
        self.inner.load_decisions()
    }

    fn save_term(&mut self, term: u64) -> Result<(), StorageError> {
        self.check("term")?;
        self.inner.save_term(term)
    }

    fn load_term(&self) -> Result<u64, StorageError> {
        self.inner.load_term()
    }

    fn save_voted_for(&mut self, voted_for: Option<NodeId>) -> Result<(), StorageError> {
        self.check("vote")?;
        self.inner.save_voted_for(voted_for)
    }

    fn load_voted_for(&self) -> Result<Option<NodeId>, StorageError> {
        self.inner.load_voted_for()
    }

    fn append_log(&mut self, entries: Vec<LogEntry<String>>) -> Result<(), StorageError> {
        self.check("append")?;
        self.inner.append_log(entries)
    }

    fn truncate_log_from(&mut self, index: u64) -> Result<(), StorageError> {
        self.check("truncate")?;
        self.inner.truncate_log_from(index)
    }

    fn load_log(&self) -> Result<Vec<LogEntry<String>>, StorageError> {
        self.inner.load_log()
    }

    fn save_commit_index(&mut self, commit_index: Option<u64>) -> Result<(), StorageError> {
        self.check("commit")?;
        self.inner.save_commit_index(commit_index)
    }

    fn load_commit_index(&self) -> Result<Option<u64>, StorageError> {
        self.inner.load_commit_index()
    }
}

/// What a storage holds (term, vote, values and commit index) once a write of the
/// second flush failed. Every write is due in it.
fn cut_short(fails: &'static str) -> (u64, Option<String>, Vec<String>, Option<u64>) {
    let storage = Faulty { inner: RaftMemoryStorage::new(), fails: "" };
    let mut p = RaftProtocol::new(NodeId::new("a", 1), 3, RaftConfig::default(), storage, NOW);
    let (b, c) = (NodeId::new("b", 1), NodeId::new("c", 1));
    let entries = vec![(1, "x"), (1, "y"), (1, "z")];
    p.handle_message(b.clone(), append(1, &b, None, entries, Some(0)), NOW);
    p.flush_persist().unwrap();
    let vote = RaftMessage::RequestVote {
        term: 2,
        candidate: b.clone(),
        last_log_index: Some(2),
        last_log_term: 1,
    };
    p.handle_message(b, vote, NOW);
    p.flush_persist().unwrap();
    p.storage.fails = fails;
    let entries = vec![(3, "w")];
    p.handle_message(c.clone(), append(3, &c, Some((0, 1)), entries, Some(1)), NOW);
    match p.flush_persist() {
        Ok(()) => assert_eq!(fails, ""),
        Err(StorageError::Persist(write)) => assert_eq!(write, fails),
        Err(_) => panic!("expected a failed write"),
    }
    assert!(p.flush_persist().is_ok());
    let inner = &p.storage.inner;
    (
        inner.load_term().unwrap(),
        inner.load_voted_for().unwrap().map(|id| id.name().to_string()),
        inner.load_log().unwrap().into_iter().map(|e| e.value).collect(),
        inner.load_commit_index().unwrap(),
    )
}

#[test]
fn a_cut_flush_leaves_the_writes_before_it() {
    let values = |v: &[&str]| v.iter().map(|s| s.to_string()).collect::<Vec<_>>();
    let old = values(&["x", "y", "z"]);
    let vote = Some("b".to_string());
    assert_eq!(cut_short("term"), (2, vote.clone(), old.clone(), Some(0)));
    assert_eq!(cut_short("vote"), (3, vote, old.clone(), Some(0)));
    assert_eq!(cut_short("truncate"), (3, None, old, Some(0)));
    assert_eq!(cut_short("append"), (3, None, values(&["x"]), Some(0)));
    assert_eq!(cut_short("commit"), (3, None, values(&["x", "w"]), Some(0)));
    assert_eq!(cut_short(""), (3, None, values(&["x", "w"]), Some(1)));
}

#[test]
fn a_failed_save_leaves_the_decisions_before_it() {
    let storage = Faulty { inner: RaftMemoryStorage::new(), fails: "decision" };
    let mut p = RaftProtocol::new(NodeId::new("a", 1), 3, RaftConfig::default(), storage, NOW);
    let b = NodeId::new("b", 1);
    p.handle_message(b.clone(), append(1, &b, None, vec![(1, "x")], Some(0)), NOW);
    assert!(matches!(p.drain_decisions(), Err(StorageError::Persist(w)) if w == "decision"));
    assert!(p.storage.load_decisions().unwrap().is_empty());
}
