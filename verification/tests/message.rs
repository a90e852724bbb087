use concensus::config::NodeId;
use concensus::message::{
    number_less, number_same, LogEntry, Message, MessageVariant, ProposalNumber, RaftMessage,
    WireVariant,
};

fn test_node_id() -> NodeId {
    NodeId::new("node-1", 1000)
}

#[test]
fn proposal_number_ordering() {
    let n1 = test_node_id();
    let n2 = NodeId::new("node-2", 1000);

    let pn1: ProposalNumber = (1, n1.clone());
    let pn2: ProposalNumber = (2, n1.clone());
    let pn3: ProposalNumber = (1, n2.clone());

    // Round takes priority
    assert!(pn1 < pn2);
    // Same round, compare by node id
    assert!(pn1 < pn3);

    assert!(number_less(&pn1, &pn2));
    assert!(number_less(&pn1, &pn3));
    assert!(!number_less(&pn2, &pn3));
    assert!(number_same(&pn1, &pn1));
    assert!(!number_same(&pn1, &pn3));
}

#[test]
fn a_copy_says_the_same() {
    let variants: Vec<WireVariant<String>> = vec![
        WireVariant::Paxos(MessageVariant::Promise {
            slot: 3,
            proposal_number: (2, test_node_id()),
            accepted: Some(((1, NodeId::new("b", 5)), "old".to_string())),
        }),
        WireVariant::Paxos(MessageVariant::Decide {
            slot: 9,
            value: "v".to_string(),
        }),
        WireVariant::Raft(RaftMessage::AppendEntries {
            term: 4,
            leader: test_node_id(),
            prev_log_index: Some(1),
            prev_log_term: 3,
            entries: vec![LogEntry {
                term: 4,
                value: "e".to_string(),
            }],
            leader_commit: Some(0),
        }),
        WireVariant::Raft(RaftMessage::Forward {
            value: "f".to_string(),
            hops: 2,
        }),
    ];
    for variant in variants {
        let message = Message {
            sender: test_node_id(),
            variant,
        };
        assert_eq!(format!("{:?}", message.clone()), format!("{message:?}"));
    }
}
