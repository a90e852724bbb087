use concensus::error::{NodeError, ProposeError, StorageError, TransportError};

#[test]
fn propose_error_display() {
    assert_eq!(ProposeError::NotRunning.display(), "node is not running");
    assert_eq!(ProposeError::ChannelFull.display(), "proposal channel full");
}

#[test]
fn error_propose_error_display() {
    assert_eq!(ProposeError::NotRunning.display(), "node is not running");
    assert_eq!(ProposeError::ChannelFull.display(), "proposal channel full");
}

#[test]
fn node_error_display() {
    assert_eq!(
        NodeError::NoQuorum.display(),
        "all peers disconnected, cannot form quorum"
    );
}

#[test]
fn error_node_error_display() {
    assert_eq!(
        NodeError::NoQuorum.display(),
        "all peers disconnected, cannot form quorum"
    );
}

#[test]
fn storage_error_display() {
    let persist = StorageError::Persist("disk full".into());
    assert_eq!(persist.display(), "failed to persist decision: disk full");
    let load = StorageError::Load("corrupt".into());
    assert_eq!(load.display(), "failed to load decisions: corrupt");
}

#[test]
fn error_storage_error_display() {
    let persist = StorageError::Persist("disk full".into());
    assert_eq!(persist.display(), "failed to persist decision: disk full");
    let load = StorageError::Load("corrupt".into());
    assert_eq!(load.display(), "failed to load decisions: corrupt");
}

#[test]
fn delete_error_display() {
    let delete = StorageError::Delete("locked".into());
    assert_eq!(delete.display(), "failed to delete acceptor state: locked");
}

#[test]
fn transport_error_display() {
    assert_eq!(TransportError::Closed.display(), "connection closed");
    let other = TransportError::Other("boom".into());
    assert_eq!(other.display(), "transport error: boom");
}

#[test]
fn error_transport_error_display() {
    assert_eq!(TransportError::Closed.display(), "connection closed");
    let other = TransportError::Other("boom".into());
    assert_eq!(other.display(), "transport error: boom");
}

#[test]
fn node_error_from_storage_error() {
    let storage_err = StorageError::Load("corrupt".into());
    let node_err: NodeError = storage_err.into();
    assert!(matches!(node_err, NodeError::Storage(_)));
}

#[test]
fn error_node_error_from_storage_error() {
    let storage_err = StorageError::Load("corrupt".into());
    let node_err: NodeError = storage_err.into();
    assert!(matches!(node_err, NodeError::Storage(_)));
    assert_eq!(
        node_err.display(),
        "storage error: failed to load decisions: corrupt"
    );
}
