//! The Multi-Paxos state machine: acceptor, proposer, decisions, retries and
//! recovery.
use concensus::config::NodeId;
use concensus::message::{MessageVariant, SendTarget};
use concensus::paxos::ProtocolState;
use concensus::storage::AcceptorState;

const NOW: u64 = 1_000_000;

fn node(name: &str) -> NodeId {
    NodeId::new(name, 1000)
}

fn make_protocol(name: &str, total_nodes: usize) -> ProtocolState<String> {
    ProtocolState::new(node(name), total_nodes)
}

// -- Acceptor tests (Phase 1) --

#[test]
fn acceptor_promises_first_prepare() {
    let mut proto = make_protocol("a", 3);
    let from = node("b");
    let pn = (1, from.clone());

    let responses = proto.handle_message(
        from,
        MessageVariant::Prepare {
            slot: 0,
            proposal_number: pn.clone(),
        },
        NOW,
    );

    assert_eq!(responses.len(), 1);
    match &responses[0].message {
        MessageVariant::Promise {
            slot,
            proposal_number,
            accepted,
        } => {
            assert_eq!(*slot, 0);
            assert_eq!(proposal_number, &pn);
            assert!(accepted.is_none());
        }
        _ => panic!("expected Promise"),
    }
}

#[test]
fn acceptor_nacks_lower_prepare() {
    let mut proto = make_protocol("a", 3);
    let from = node("b");

    // First prepare with higher number
    proto.handle_message(
        from.clone(),
        MessageVariant::Prepare {
            slot: 0,
            proposal_number: (5, from.clone()),
        },
        NOW,
    );

    // Second prepare with lower number
    let responses = proto.handle_message(
        from.clone(),
        MessageVariant::Prepare {
            slot: 0,
            proposal_number: (1, from.clone()),
        },
        NOW,
    );

    assert_eq!(responses.len(), 1);
    assert!(matches!(
        &responses[0].message,
        MessageVariant::NackPrepare { .. }
    ));
}

// -- Acceptor tests (Phase 2) --
// Acceptor accepts if proposal_number >= highest_promised.
// Greater-than-or-equal here because the proposer that made the promise
// is now sending Accept with the same number — that's valid.

#[test]
fn acceptor_accepts_if_no_higher_promise() {
    let mut proto = make_protocol("a", 3);
    let from = node("b");
    let pn = (1, from.clone());

    let responses = proto.handle_message(
        from.clone(),
        MessageVariant::Accept {
            slot: 0,
            proposal_number: pn.clone(),
            value: "hello".to_string(),
        },
        NOW,
    );

    assert_eq!(responses.len(), 1);
    match &responses[0].message {
        MessageVariant::Accepted {
            slot,
            proposal_number,
            value,
        } => {
            assert_eq!(*slot, 0);
            assert_eq!(proposal_number, &pn);
            assert_eq!(value, "hello");
        }
        _ => panic!("expected Accepted"),
    }
}

#[test]
fn acceptor_nacks_accept_with_lower_proposal() {
    let mut proto = make_protocol("a", 3);
    let from = node("b");

    // Promise a higher number first
    proto.handle_message(
        from.clone(),
        MessageVariant::Prepare {
            slot: 0,
            proposal_number: (5, from.clone()),
        },
        NOW,
    );

    // Try to accept with lower number
    let responses = proto.handle_message(
        from.clone(),
        MessageVariant::Accept {
            slot: 0,
            proposal_number: (1, from.clone()),
            value: "hello".to_string(),
        },
        NOW,
    );

    assert_eq!(responses.len(), 1);
    assert!(matches!(
        &responses[0].message,
        MessageVariant::NackAccept { .. }
    ));
}

#[test]
fn acceptor_records_accepted_value_in_promise() {
    let mut proto = make_protocol("a", 3);
    let from = node("b");
    let pn1 = (1, from.clone());

    // Accept a value
    proto.handle_message(
        from.clone(),
        MessageVariant::Accept {
            slot: 0,
            proposal_number: pn1.clone(),
            value: "hello".to_string(),
        },
        NOW,
    );

    // New prepare should return the accepted value
    let pn2 = (2, from.clone());
    let responses = proto.handle_message(
        from.clone(),
        MessageVariant::Prepare {
            slot: 0,
            proposal_number: pn2.clone(),
        },
        NOW,
    );

    match &responses[0].message {
        MessageVariant::Promise {
            accepted: Some((pn, val)),
            ..
        } => {
            assert_eq!(pn, &pn1);
            assert_eq!(val, "hello");
        }
        _ => panic!("expected Promise with accepted value"),
    }
}

// -- Proposer tests --

#[test]
fn propose_starts_phase1_and_self_votes() {
    let mut proto = make_protocol("a", 3);
    let (slot, outgoing) = proto.propose("hello".to_string(), NOW);

    assert_eq!(slot, 0);
    // Should produce Prepare broadcast
    assert!(!outgoing.is_empty());
    for out in &outgoing {
        assert!(matches!(
            &out.message,
            MessageVariant::Prepare { slot: 0, .. }
        ));
        assert!(matches!(&out.target, SendTarget::Broadcast));
    }

    // Self-vote: should have recorded own promise
    let instance = proto.instances.get(&0).unwrap();
    assert!(instance.promises_received.contains(&proto.node_id));
}

#[test]
fn propose_increments_next_slot() {
    let mut proto = make_protocol("a", 3);
    let (slot1, _) = proto.propose("first".to_string(), NOW);
    let (slot2, _) = proto.propose("second".to_string(), NOW);
    assert_eq!(slot1, 0);
    assert_eq!(slot2, 1);
}

#[test]
fn single_node_decides_immediately_on_propose() {
    let mut proto = make_protocol("a", 1);
    let (_slot, outgoing) = proto.propose("hello".to_string(), NOW);

    // With quorum_size=1, self-vote gives immediate decision
    // Should produce Decide broadcast
    assert!(outgoing
        .iter()
        .any(|o| matches!(&o.message, MessageVariant::Decide { .. })));

    let decisions = proto.take_decisions();
    assert_eq!(decisions.len(), 1);
    assert_eq!(decisions[0].slot, 0);
    assert_eq!(decisions[0].value, "hello");
}

#[test]
fn promise_quorum_triggers_phase2() {
    let mut proto = make_protocol("a", 3);
    let (_slot, _) = proto.propose("hello".to_string(), NOW);

    // We need one more promise (already have self-vote)
    let pn = proto.instances.get(&0).unwrap().proposal_number.clone();
    let responses = proto.handle_message(
        node("b"),
        MessageVariant::Promise {
            slot: 0,
            proposal_number: pn.clone(),
            accepted: None,
        },
        NOW,
    );

    // Should produce Accept broadcast
    assert!(!responses.is_empty());
    for out in &responses {
        match &out.message {
            MessageVariant::Accept { value, .. } => assert_eq!(value, "hello"),
            _ => panic!("expected Accept, got {:?}", out.message),
        }
    }
}

#[test]
fn phase2_value_selection_uses_highest_accepted() {
    let mut proto = make_protocol("a", 3);
    let (_slot, _) = proto.propose("my-value".to_string(), NOW);

    let pn = proto.instances.get(&0).unwrap().proposal_number.clone();

    // Peer b already accepted a value at a lower proposal number
    let responses = proto.handle_message(
        node("b"),
        MessageVariant::Promise {
            slot: 0,
            proposal_number: pn.clone(),
            accepted: Some(((1, node("c")), "previous-value".to_string())),
        },
        NOW,
    );

    // Phase 2 should use "previous-value", not "my-value"
    for out in &responses {
        match &out.message {
            MessageVariant::Accept { value, .. } => assert_eq!(value, "previous-value"),
            _ => panic!("expected Accept"),
        }
    }
}

#[test]
fn phase2_value_selection_picks_highest_of_multiple() {
    let mut proto = make_protocol("a", 5); // quorum = 3
    let (_slot, _) = proto.propose("my-value".to_string(), NOW);
    let pn = proto.instances.get(&0).unwrap().proposal_number.clone();

    // Peer b accepted at round 1
    proto.handle_message(
        node("b"),
        MessageVariant::Promise {
            slot: 0,
            proposal_number: pn.clone(),
            accepted: Some(((1, node("x")), "old-value".to_string())),
        },
        NOW,
    );

    // Peer c accepted at round 3 (higher)
    let responses = proto.handle_message(
        node("c"),
        MessageVariant::Promise {
            slot: 0,
            proposal_number: pn.clone(),
            accepted: Some(((3, node("y")), "newer-value".to_string())),
        },
        NOW,
    );

    // Should use "newer-value" (highest proposal number)
    for out in &responses {
        match &out.message {
            MessageVariant::Accept { value, .. } => assert_eq!(value, "newer-value"),
            _ => panic!("expected Accept"),
        }
    }
}

#[test]
fn duplicate_promise_does_not_double_count() {
    let mut proto = make_protocol("a", 5); // quorum = 3
    let (_slot, _) = proto.propose("hello".to_string(), NOW);
    let pn = proto.instances.get(&0).unwrap().proposal_number.clone();

    // Same peer sends Promise twice
    proto.handle_message(
        node("b"),
        MessageVariant::Promise {
            slot: 0,
            proposal_number: pn.clone(),
            accepted: None,
        },
        NOW,
    );
    let responses = proto.handle_message(
        node("b"),
        MessageVariant::Promise {
            slot: 0,
            proposal_number: pn.clone(),
            accepted: None,
        },
        NOW,
    );

    // Should not trigger Phase 2 — we have self + b = 2, quorum = 3
    assert!(responses.is_empty());
}

// -- Decision tests --

#[test]
fn accepted_quorum_triggers_decision() {
    let mut proto = make_protocol("a", 3);
    let (_, _) = proto.propose("hello".to_string(), NOW);
    let pn = proto.instances.get(&0).unwrap().proposal_number.clone();

    // Get quorum of promises to move to Phase 2
    proto.handle_message(
        node("b"),
        MessageVariant::Promise {
            slot: 0,
            proposal_number: pn.clone(),
            accepted: None,
        },
        NOW,
    );

    // Now we need one more Accepted (already have self-vote from Phase 2)
    let responses = proto.handle_message(
        node("b"),
        MessageVariant::Accepted {
            slot: 0,
            proposal_number: pn.clone(),
            value: "hello".to_string(),
        },
        NOW,
    );

    // Should broadcast Decide
    assert!(responses
        .iter()
        .any(|o| matches!(&o.message, MessageVariant::Decide { .. })));

    let decisions = proto.take_decisions();
    assert_eq!(decisions.len(), 1);
    assert_eq!(decisions[0].value, "hello");
}

#[test]
fn duplicate_accepted_does_not_double_count() {
    let mut proto = make_protocol("a", 5); // quorum = 3
    let (_, _) = proto.propose("hello".to_string(), NOW);
    let pn = proto.instances.get(&0).unwrap().proposal_number.clone();

    // Get quorum of promises (self + b + c = 3)
    proto.handle_message(
        node("b"),
        MessageVariant::Promise {
            slot: 0,
            proposal_number: pn.clone(),
            accepted: None,
        },
        NOW,
    );
    proto.handle_message(
        node("c"),
        MessageVariant::Promise {
            slot: 0,
            proposal_number: pn.clone(),
            accepted: None,
        },
        NOW,
    );

    // Same peer sends Accepted twice — should not trigger early quorum
    proto.handle_message(
        node("b"),
        MessageVariant::Accepted {
            slot: 0,
            proposal_number: pn.clone(),
            value: "hello".to_string(),
        },
        NOW,
    );
    let responses = proto.handle_message(
        node("b"),
        MessageVariant::Accepted {
            slot: 0,
            proposal_number: pn.clone(),
            value: "hello".to_string(),
        },
        NOW,
    );

    // self + b = 2, quorum = 3, should not decide
    assert!(responses.is_empty());
    assert!(proto.take_decisions().is_empty());
}

#[test]
fn handle_decide_from_peer() {
    let mut proto = make_protocol("a", 3);

    proto.handle_message(
        node("b"),
        MessageVariant::Decide {
            slot: 5,
            value: "remote-decision".to_string(),
        },
        NOW,
    );

    let decisions = proto.take_decisions();
    assert_eq!(decisions.len(), 1);
    assert_eq!(decisions[0].slot, 5);
    assert_eq!(decisions[0].value, "remote-decision");

    // next_slot should advance
    assert!(proto.next_slot >= 6);
}

#[test]
fn decided_slot_replies_with_decide_to_late_prepare() {
    let mut proto = make_protocol("a", 3);
    proto.handle_message(
        node("b"),
        MessageVariant::Decide {
            slot: 0,
            value: "decided".to_string(),
        },
        NOW,
    );
    proto.take_decisions();

    // A late Prepare for a decided slot should reply with the Decide
    // so the sender can learn the outcome (important for lossy networks).
    let responses = proto.handle_message(
        node("c"),
        MessageVariant::Prepare {
            slot: 0,
            proposal_number: (10, node("c")),
        },
        NOW,
    );
    assert_eq!(responses.len(), 1);
    assert!(matches!(
        &responses[0].message,
        MessageVariant::Decide { slot: 0, value } if value == "decided"
    ));
    assert!(matches!(&responses[0].target, SendTarget::Peer(id) if id == &node("c")));
}

#[test]
fn instance_garbage_collected_after_decision() {
    let mut proto = make_protocol("a", 3);
    proto.handle_message(
        node("b"),
        MessageVariant::Decide {
            slot: 0,
            value: "done".to_string(),
        },
        NOW,
    );
    proto.take_decisions();

    assert!(!proto.instances.contains_key(&0));
    assert!(proto.decided_slots.contains_key(&0));
}

#[test]
fn decide_from_external_does_not_repropose_if_value_matches() {
    // When the decided value matches our proposed value, we won this slot.
    // No re-proposal needed.
    let mut proto = make_protocol("a", 3);
    let (_, _) = proto.propose("my-value".to_string(), NOW);

    proto.handle_message(
        node("b"),
        MessageVariant::Decide {
            slot: 0,
            value: "my-value".to_string(),
        },
        NOW,
    );

    let lost = proto.take_lost_proposals();
    assert!(lost.is_empty());
}

#[test]
fn decide_for_different_value_re_proposes() {
    let mut proto = make_protocol("a", 3);
    let (_, _) = proto.propose("my-value".to_string(), NOW);

    // A different value decided for our slot
    proto.handle_message(
        node("b"),
        MessageVariant::Decide {
            slot: 0,
            value: "other-value".to_string(),
        },
        NOW,
    );

    let lost = proto.take_lost_proposals();
    assert_eq!(lost.len(), 1);
    assert_eq!(lost[0], "my-value");
}

// -- Nack / retry tests --

#[test]
fn nack_records_highest_promised_for_retry() {
    let mut proto = make_protocol("a", 3);
    let (_, _) = proto.propose("hello".to_string(), NOW);
    let pn = proto.instances.get(&0).unwrap().proposal_number.clone();

    proto.handle_message(
        node("b"),
        MessageVariant::NackPrepare {
            slot: 0,
            proposal_number: pn,
            highest_promised: (10, node("b")),
        },
        NOW,
    );

    let instance = proto.instances.get(&0).unwrap();
    assert!(instance.nacked);
    assert_eq!(instance.highest_seen_nack, Some(10));
    assert!(instance.last_nack_time.is_some());
}

#[test]
fn retry_proposal_uses_higher_number() {
    let mut proto = make_protocol("a", 3);
    let (_, _) = proto.propose("hello".to_string(), NOW);
    let old_pn = proto.instances.get(&0).unwrap().proposal_number.clone();

    // Nack so retry is allowed
    proto.handle_message(
        node("b"),
        MessageVariant::NackPrepare {
            slot: 0,
            proposal_number: old_pn.clone(),
            highest_promised: (5, node("b")),
        },
        NOW,
    );

    let outgoing = proto.retry_proposal(0, NOW);
    assert!(!outgoing.is_empty());

    let new_pn = proto.instances.get(&0).unwrap().proposal_number.clone();
    assert!(new_pn > old_pn);
    // New round should be at least highest_seen_nack + 1
    assert!(new_pn.0 > 5);
}

#[test]
fn retry_preserves_acceptor_state() {
    let mut proto = make_protocol("a", 3);
    let (_, _) = proto.propose("hello".to_string(), NOW);

    // Accept a value as acceptor
    let from = node("b");
    proto.handle_message(
        from.clone(),
        MessageVariant::Accept {
            slot: 0,
            proposal_number: (5, from.clone()),
            value: "other".to_string(),
        },
        NOW,
    );

    // Nack and retry
    proto.handle_message(
        from.clone(),
        MessageVariant::NackPrepare {
            slot: 0,
            proposal_number: proto.instances.get(&0).unwrap().proposal_number.clone(),
            highest_promised: (10, from),
        },
        NOW,
    );
    proto.retry_proposal(0, NOW);

    // Acceptor state should still have the accepted value
    let instance = proto.instances.get(&0).unwrap();
    assert!(instance.accepted.is_some());
    // Retry round should exceed the acceptor's highest_promised (round 5 from Accept)
    assert!(instance.proposal_number.0 > 5);
}

#[test]
fn retry_round_exceeds_acceptor_highest_promised() {
    let mut proto = make_protocol("a", 3);
    let (_, _) = proto.propose("hello".to_string(), NOW);

    // Another proposer's Prepare updates our acceptor's highest_promised to round 20
    proto.handle_message(
        node("c"),
        MessageVariant::Prepare {
            slot: 0,
            proposal_number: (20, node("c")),
        },
        NOW,
    );

    // Our proposal gets nacked with a lower round (5)
    proto.handle_message(
        node("b"),
        MessageVariant::NackPrepare {
            slot: 0,
            proposal_number: proto.instances.get(&0).unwrap().proposal_number.clone(),
            highest_promised: (5, node("b")),
        },
        NOW,
    );

    proto.retry_proposal(0, NOW);

    // Retry must use round > 20 (acceptor's promise), not just > 5 (nack)
    let instance = proto.instances.get(&0).unwrap();
    assert!(instance.proposal_number.0 > 20);
}

#[test]
fn start_phase2_respects_acceptor_promise() {
    let mut proto = make_protocol("a", 3);
    let (_, _) = proto.propose("hello".to_string(), NOW);
    let pn = proto.instances.get(&0).unwrap().proposal_number.clone();

    // Another proposer updates our highest_promised to a high round
    proto.handle_message(
        node("c"),
        MessageVariant::Prepare {
            slot: 0,
            proposal_number: (100, node("c")),
        },
        NOW,
    );

    // Now peer b sends Promise for our original (low) proposal number
    let _responses = proto.handle_message(
        node("b"),
        MessageVariant::Promise {
            slot: 0,
            proposal_number: pn.clone(),
            accepted: None,
        },
        NOW,
    );

    // Phase 2 should start but self-accept should be skipped because
    // our acceptor promised round 100. The Accept is still broadcast
    // (other acceptors may not have that promise), but our self-vote is not counted.
    let instance = proto.instances.get(&0);
    if let Some(inst) = instance {
        // Self should NOT be in accepts_received
        assert!(!inst.accepts_received.contains(&proto.node_id));
    }
}

// -- Dirty acceptor slot tracking tests --

#[test]
fn handle_prepare_marks_dirty_acceptor_slot() {
    let mut proto = make_protocol("a", 3);
    let from = node("b");
    let pn = (1, from.clone());
    proto.handle_message(
        from,
        MessageVariant::Prepare {
            slot: 0,
            proposal_number: pn,
        },
        NOW,
    );
    let dirty = proto.take_dirty_acceptor_slots();
    assert_eq!(dirty.len(), 1);
    assert_eq!(dirty[0].0, 0);
    assert!(dirty[0].1.is_some());
}

#[test]
fn handle_accept_marks_dirty_acceptor_slot() {
    let mut proto = make_protocol("a", 3);
    let from = node("b");
    let pn = (1, from.clone());
    proto.handle_message(
        from,
        MessageVariant::Accept {
            slot: 0,
            proposal_number: pn,
            value: "hello".to_string(),
        },
        NOW,
    );
    let dirty = proto.take_dirty_acceptor_slots();
    assert_eq!(dirty.len(), 1);
    assert_eq!(dirty[0].0, 0);
    assert!(dirty[0].1.is_some());
    assert!(dirty[0].2.is_some());
}

#[test]
fn take_dirty_clears_dirty_set() {
    let mut proto = make_protocol("a", 3);
    let from = node("b");
    proto.handle_message(
        from,
        MessageVariant::Prepare {
            slot: 0,
            proposal_number: (1, node("b")),
        },
        NOW,
    );
    let dirty1 = proto.take_dirty_acceptor_slots();
    assert_eq!(dirty1.len(), 1);
    let dirty2 = proto.take_dirty_acceptor_slots();
    assert!(dirty2.is_empty());
}

#[test]
fn propose_self_vote_marks_dirty() {
    let mut proto = make_protocol("a", 3);
    proto.propose("hello".to_string(), NOW);
    let dirty = proto.take_dirty_acceptor_slots();
    assert_eq!(dirty.len(), 1);
    assert_eq!(dirty[0].0, 0);
    assert!(dirty[0].1.is_some());
}

#[test]
fn retry_proposal_marks_dirty() {
    let mut proto = make_protocol("a", 3);
    let (_, _) = proto.propose("hello".to_string(), NOW);
    proto.take_dirty_acceptor_slots(); // clear
    let pn = proto.instances.get(&0).unwrap().proposal_number.clone();
    proto.handle_message(
        node("b"),
        MessageVariant::NackPrepare {
            slot: 0,
            proposal_number: pn,
            highest_promised: (5, node("b")),
        },
        NOW,
    );
    proto.take_dirty_acceptor_slots(); // clear nack
    proto.retry_proposal(0, NOW);
    let dirty = proto.take_dirty_acceptor_slots();
    assert_eq!(dirty.len(), 1);
    assert_eq!(dirty[0].0, 0);
}

#[test]
fn decided_slot_prepare_does_not_mark_dirty() {
    let mut proto = make_protocol("a", 3);
    proto.handle_message(
        node("b"),
        MessageVariant::Decide {
            slot: 0,
            value: "decided".to_string(),
        },
        NOW,
    );
    proto.take_decisions();
    proto.take_dirty_acceptor_slots(); // clear any
    proto.handle_message(
        node("c"),
        MessageVariant::Prepare {
            slot: 0,
            proposal_number: (10, node("c")),
        },
        NOW,
    );
    let dirty = proto.take_dirty_acceptor_slots();
    assert!(dirty.is_empty());
}

// -- initialize_from_acceptor_states tests --

#[test]
fn initialize_from_acceptor_states_restores_promise() {
    let mut proto = make_protocol("a", 3);
    let pn = (5, node("b"));
    let states = vec![AcceptorState {
        slot: 0,
        highest_promised: Some(pn.clone()),
        accepted: None,
    }];
    proto.initialize_from_acceptor_states(states);
    let responses = proto.handle_message(
        node("c"),
        MessageVariant::Prepare {
            slot: 0,
            proposal_number: (3, node("c")),
        },
        NOW,
    );
    assert!(matches!(
        &responses[0].message,
        MessageVariant::NackPrepare { .. }
    ));
}

#[test]
fn initialize_from_acceptor_states_restores_accepted() {
    let mut proto = make_protocol("a", 3);
    let pn = (5, node("b"));
    let states = vec![AcceptorState {
        slot: 0,
        highest_promised: Some(pn.clone()),
        accepted: Some((pn.clone(), "previous".to_string())),
    }];
    proto.initialize_from_acceptor_states(states);
    let responses = proto.handle_message(
        node("c"),
        MessageVariant::Prepare {
            slot: 0,
            proposal_number: (10, node("c")),
        },
        NOW,
    );
    match &responses[0].message {
        MessageVariant::Promise {
            accepted: Some((_, val)),
            ..
        } => assert_eq!(val, "previous"),
        _ => panic!("expected Promise with accepted value"),
    }
}

#[test]
fn initialize_from_acceptor_states_skips_decided_slots() {
    let mut proto = make_protocol("a", 3);
    proto.handle_message(
        node("b"),
        MessageVariant::Decide {
            slot: 0,
            value: "done".to_string(),
        },
        NOW,
    );
    proto.take_decisions();
    let states = vec![AcceptorState {
        slot: 0,
        highest_promised: Some((5, node("b"))),
        accepted: None,
    }];
    proto.initialize_from_acceptor_states(states);
    assert!(!proto.instances.contains_key(&0));
}

#[test]
fn initialize_from_acceptor_states_advances_next_slot() {
    let mut proto = make_protocol("a", 3);
    // Decide slots 0 and 1 so next_slot = 2
    proto.handle_message(
        node("b"),
        MessageVariant::Decide {
            slot: 0,
            value: "a".to_string(),
        },
        NOW,
    );
    proto.handle_message(
        node("b"),
        MessageVariant::Decide {
            slot: 1,
            value: "b".to_string(),
        },
        NOW,
    );
    proto.take_decisions();
    assert_eq!(proto.next_slot, 2);

    // Restore acceptor state for slot 5 (undecided)
    let states = vec![AcceptorState {
        slot: 5,
        highest_promised: Some((3, node("c"))),
        accepted: None,
    }];
    proto.initialize_from_acceptor_states(states);

    // next_slot must advance past the restored slot
    assert_eq!(proto.next_slot, 6);

    // propose() should not reuse slot 5
    let (slot, _) = proto.propose("new".to_string(), NOW);
    assert_eq!(slot, 6);
}

#[test]
fn get_retryable_proposals_with_backoff() {
    let mut proto = make_protocol("a", 3);
    let (_, _) = proto.propose("hello".to_string(), NOW);

    proto.handle_message(
        node("b"),
        MessageVariant::NackPrepare {
            slot: 0,
            proposal_number: proto.instances.get(&0).unwrap().proposal_number.clone(),
            highest_promised: (5, node("b")),
        },
        NOW,
    );

    // Immediately after nack — backoff hasn't elapsed (100ms minimum)
    let _retryable = proto.get_retryable_proposals(NOW);
    // Just verify the method runs without panic — timing-sensitive tests are fragile
}

#[test]
fn a_proposer_that_adopts_a_value_hands_its_own_back() {
    let mut proto = make_protocol("a", 3);
    let (slot, _) = proto.propose("mine".to_string(), NOW);
    let out = proto.handle_message(
        node("b"),
        MessageVariant::Promise {
            slot,
            proposal_number: (1, node("a")),
            accepted: Some(((0, node("c")), "theirs".to_string())),
        },
        NOW,
    );
    assert!(matches!(
        &out[0].message,
        MessageVariant::Accept { value, .. } if value == "theirs"
    ));
    let out = proto.handle_message(
        node("b"),
        MessageVariant::Accepted {
            slot,
            proposal_number: (1, node("a")),
            value: "theirs".to_string(),
        },
        NOW,
    );
    assert!(matches!(
        &out[0].message,
        MessageVariant::Decide { value, .. } if value == "theirs"
    ));
    assert_eq!(proto.take_decisions()[0].value, "theirs");
    assert_eq!(proto.take_lost_proposals(), vec!["mine".to_string()]);
}

fn prepare(proto: &mut ProtocolState<String>, from: &str, number: (u64, NodeId)) -> MessageVariant<String> {
    let mut out = proto.handle_message(
        node(from),
        MessageVariant::Prepare {
            slot: 0,
            proposal_number: number,
        },
        NOW,
    );
    assert_eq!(out.len(), 1);
    out.remove(0).message
}

fn accept(
    proto: &mut ProtocolState<String>,
    from: &str,
    number: (u64, NodeId),
    value: &str,
) -> MessageVariant<String> {
    let mut out = proto.handle_message(
        node(from),
        MessageVariant::Accept {
            slot: 0,
            proposal_number: number,
            value: value.to_string(),
        },
        NOW,
    );
    assert_eq!(out.len(), 1);
    out.remove(0).message
}

/// The values that a promise makes the node ask for, with their numbers.
fn promise(
    proto: &mut ProtocolState<String>,
    from: &str,
    number: (u64, NodeId),
    accepted: Option<((u64, NodeId), &str)>,
) -> Vec<((u64, NodeId), String)> {
    proto
        .handle_message(
            node(from),
            MessageVariant::Promise {
                slot: 0,
                proposal_number: number,
                accepted: accepted.map(|(n, v)| (n, v.to_string())),
            },
            NOW,
        )
        .into_iter()
        .map(|o| match o.message {
            MessageVariant::Accept {
                proposal_number,
                value,
                ..
            } => {
                assert!(matches!(o.target, SendTarget::Broadcast));
                (proposal_number, value)
            }
            _ => panic!("expected Accept"),
        })
        .collect()
}

/// The values that an acceptance makes the node announce as decided.
fn accepted(
    proto: &mut ProtocolState<String>,
    from: &str,
    number: (u64, NodeId),
    value: &str,
) -> Vec<String> {
    proto
        .handle_message(
            node(from),
            MessageVariant::Accepted {
                slot: 0,
                proposal_number: number,
                value: value.to_string(),
            },
            NOW,
        )
        .into_iter()
        .map(|o| match o.message {
            MessageVariant::Decide { slot: 0, value } => value,
            _ => panic!("expected Decide"),
        })
        .collect()
}

#[test]
fn proposing_takes_no_promise_back() {
    let mut proto = make_protocol("a", 3);
    assert!(matches!(
        prepare(&mut proto, "b", (5, node("b"))),
        MessageVariant::Promise { .. }
    ));
    let (slot, out) = proto.propose("hello".to_string(), NOW);
    assert_eq!(slot, 0);
    assert!(matches!(
        &out[0].message,
        MessageVariant::Prepare { slot: 0, proposal_number } if *proposal_number == (1, node("a"))
    ));
    let instance = proto.instances.get(&0).unwrap();
    assert_eq!(instance.highest_promised, Some((5, node("b"))));
    assert!(!instance.promises_received.contains(&node("a")));
    match accept(&mut proto, "c", (3, node("c")), "x") {
        MessageVariant::NackAccept {
            slot,
            proposal_number,
            highest_promised,
        } => {
            assert_eq!(slot, 0);
            assert_eq!(proposal_number, (3, node("c")));
            assert_eq!(highest_promised, (5, node("b")));
        }
        _ => panic!("expected NackAccept"),
    }
}

#[test]
fn a_single_node_that_promised_higher_proposes_again() {
    let mut proto = make_protocol("a", 1);
    prepare(&mut proto, "b", (5, node("b")));
    let (slot, out) = proto.propose("hello".to_string(), NOW);
    assert!(matches!(&out[0].message, MessageVariant::Prepare { .. }));
    assert_eq!(proto.get_retryable_proposals(NOW + 1000), vec![slot]);
    let out = proto.retry_proposal(slot, NOW + 1000);
    assert!(matches!(
        &out[0].message,
        MessageVariant::Decide { slot: 0, value } if value == "hello"
    ));
}

#[test]
fn the_own_acceptance_counts_in_phase_2() {
    let mut proto = make_protocol("a", 3);
    proto.propose("hello".to_string(), NOW);
    assert!(matches!(
        accept(&mut proto, "c", (1, node("c")), "x"),
        MessageVariant::Accepted { .. }
    ));
    proto.retry_proposal(0, NOW);
    assert_eq!(
        promise(&mut proto, "b", (2, node("a")), None),
        vec![((2, node("a")), "x".to_string())]
    );
    // A value accepted under a higher number would have won.
    let mut proto = make_protocol("a", 3);
    proto.propose("hello".to_string(), NOW);
    accept(&mut proto, "b", (1, node("b")), "x");
    proto.retry_proposal(0, NOW);
    assert_eq!(
        promise(&mut proto, "c", (2, node("a")), Some(((1, node("c")), "y"))),
        vec![((2, node("a")), "y".to_string())]
    );
}

#[test]
fn a_late_promise_changes_no_value() {
    let mut proto = make_protocol("a", 5);
    proto.propose("mine".to_string(), NOW);
    assert!(promise(&mut proto, "b", (1, node("a")), None).is_empty());
    let asked = vec![((1, node("a")), "mine".to_string())];
    assert_eq!(promise(&mut proto, "c", (1, node("a")), None), asked);
    assert_eq!(
        promise(&mut proto, "d", (1, node("a")), Some(((0, node("z")), "x"))),
        asked
    );
}

#[test]
fn a_quorum_of_others_decides() {
    let mut proto = make_protocol("a", 5);
    proto.propose("hello".to_string(), NOW);
    prepare(&mut proto, "c", (100, node("c")));
    let own = (1, node("a"));
    assert!(promise(&mut proto, "b", own.clone(), None).is_empty());
    assert_eq!(promise(&mut proto, "d", own.clone(), None).len(), 1);
    assert!(accepted(&mut proto, "b", own.clone(), "hello").is_empty());
    assert!(accepted(&mut proto, "d", own.clone(), "hello").is_empty());
    assert_eq!(accepted(&mut proto, "e", own, "hello"), vec!["hello"]);
    let decisions = proto.take_decisions();
    assert_eq!(decisions.len(), 1);
    assert_eq!((decisions[0].slot, decisions[0].value.as_str()), (0, "hello"));
}

#[test]
fn what_was_asked_is_decided() {
    let mut proto = make_protocol("a", 3);
    proto.propose("hello".to_string(), NOW);
    let own = (1, node("a"));
    promise(&mut proto, "b", own.clone(), None);
    assert!(matches!(
        accept(&mut proto, "c", (5, node("c")), "x"),
        MessageVariant::Accepted { .. }
    ));
    assert_eq!(accepted(&mut proto, "b", own, "hello"), vec!["hello"]);
    assert!(proto.take_lost_proposals().is_empty());
}

#[test]
fn acceptances_before_phase_2_decide_nothing() {
    let mut proto = make_protocol("a", 3);
    proto.propose("hello".to_string(), NOW);
    let own = (1, node("a"));
    assert!(accepted(&mut proto, "b", own.clone(), "hello").is_empty());
    assert!(accepted(&mut proto, "c", own, "hello").is_empty());
    assert!(proto.take_decisions().is_empty());
}

#[test]
fn proposals_take_rising_slots() {
    let mut proto = make_protocol("a", 3);
    proto.initialize_from_decisions(vec![(3, "old".to_string())]);
    proto.initialize_from_acceptor_states(vec![AcceptorState {
        slot: 7,
        highest_promised: Some((1, node("b"))),
        accepted: None,
    }]);
    assert_eq!(proto.propose("x".to_string(), NOW).0, 8);
    assert_eq!(proto.propose("y".to_string(), NOW).0, 9);
}

#[test]
fn the_promise_handler_keeps_to_one_value() {
    let mut proto = make_protocol("a", 5);
    proto.propose("mine".to_string(), NOW);
    let own = (1, node("a"));
    for (from, accepted) in [
        ("b", None),
        ("c", None),
        ("d", Some(((0, node("z")), "other".to_string()))),
    ] {
        for o in proto.handle_promise(node(from), 0, own.clone(), accepted, NOW) {
            assert!(matches!(
                o.message,
                MessageVariant::Accept { slot: 0, value, .. } if value == "mine"
            ));
        }
    }
}

#[test]
fn every_proposal_opens_a_slot_of_its_own() {
    let mut proto = make_protocol("a", 3);
    for expected in 0..3 {
        let (slot, out) = proto.propose(format!("v{expected}"), NOW);
        assert_eq!((slot, proto.next_slot), (expected, expected + 1));
        assert_eq!(out.len(), 1);
        assert!(matches!(out[0].target, SendTarget::Broadcast));
        assert!(matches!(
            &out[0].message,
            MessageVariant::Prepare { slot, proposal_number }
                if *slot == expected && *proposal_number == (1, node("a"))
        ));
        assert!(proto.take_decisions().is_empty());
    }
    let mut solo = make_protocol("a", 1);
    let (slot, out) = solo.propose("v".to_string(), NOW);
    assert_eq!((slot, solo.next_slot, out.len()), (0, 1, 1));
    assert!(matches!(
        &out[0].message,
        MessageVariant::Decide { slot: 0, value } if value == "v"
    ));
    assert_eq!(solo.take_decisions().len(), 1);
}
