//! Errors of the node, its storage and its transport.
use vstd::prelude::*;
use vstd::string::*;

verus! {

/// Errors returned when a value is proposed.
#[derive(Debug, Clone, Copy, PartialEq, Eq, Structural)]
pub enum ProposeError {
    /// The node's event loop has stopped (all handles dropped or fatal error).
    NotRunning,
    /// The internal proposal queue is full. Back off and retry.
    ChannelFull,
}

impl ProposeError {
    pub open spec fn text(self) -> Seq<char> {
        match self {
            ProposeError::NotRunning => "node is not running"@,
            ProposeError::ChannelFull => "proposal channel full"@,
        }
    }

    /// The error as text.
    pub fn display(&self) -> (text: String)
        ensures
            text@ == self.text(),
    {
        match self {
            ProposeError::NotRunning => "node is not running".to_owned(),
            ProposeError::ChannelFull => "proposal channel full".to_owned(),
        }
    }
}

/// Errors from a storage.
#[derive(Debug)]
pub enum StorageError {
    /// Failed to persist a decided value.
    Persist(String),
    /// Failed to load previously decided values during recovery.
    Load(String),
    /// Failed to delete acceptor state.
    Delete(String),
}

impl StorageError {
    pub open spec fn text(self) -> Seq<char> {
        match self {
            StorageError::Persist(why) => "failed to persist decision: "@ + why@,
            StorageError::Load(why) => "failed to load decisions: "@ + why@,
            StorageError::Delete(why) => "failed to delete acceptor state: "@ + why@,
        }
    }

    /// The error as text.
    pub fn display(&self) -> (text: String)
        ensures
            text@ == self.text(),
    {
        match self {
            StorageError::Persist(why) => "failed to persist decision: ".to_owned().concat(why),
            StorageError::Load(why) => "failed to load decisions: ".to_owned().concat(why),
            StorageError::Delete(why) => "failed to delete acceptor state: ".to_owned().concat(why),
        }
    }
}

/// Errors that end a node's event loop.
#[derive(Debug)]
pub enum NodeError {
    /// The transport receiver closed and the cluster cannot form a quorum,
    /// making further progress impossible.
    NoQuorum,
    /// A storage operation failed during decision persistence or recovery.
    Storage(StorageError),
}

impl NodeError {
    pub open spec fn text(self) -> Seq<char> {
        match self {
            NodeError::NoQuorum => "all peers disconnected, cannot form quorum"@,
            NodeError::Storage(e) => "storage error: "@ + e.text(),
        }
    }

    /// The error as text.
    pub fn display(&self) -> (text: String)
        ensures
            text@ == self.text(),
    {
        match self {
            NodeError::NoQuorum => "all peers disconnected, cannot form quorum".to_owned(),
            NodeError::Storage(e) => {
                let inner: String = e.display();
                "storage error: ".to_owned().concat(inner.as_str())
            },
        }
    }
}

impl From<StorageError> for NodeError {
    fn from(e: StorageError) -> (error: NodeError) {
        NodeError::Storage(e)
    }
}

impl vstd::std_specs::convert::FromSpecImpl<StorageError> for NodeError {
    open spec fn obeys_from_spec() -> bool {
        true
    }

    open spec fn from_spec(e: StorageError) -> NodeError {
        NodeError::Storage(e)
    }
}

/// Errors from a transport.
#[derive(Debug)]
pub enum TransportError {
    /// The underlying connection or channel has been closed.
    Closed,
    /// A transport-specific error (I/O failure, bind error, etc.).
    Other(String),
}

impl TransportError {
    pub open spec fn text(self) -> Seq<char> {
        match self {
            TransportError::Closed => "connection closed"@,
            TransportError::Other(why) => "transport error: "@ + why@,
        }
    }

    /// The error as text.
    pub fn display(&self) -> (text: String)
        ensures
            text@ == self.text(),
    {
        match self {
            TransportError::Closed => "connection closed".to_owned(),
            TransportError::Other(why) => "transport error: ".to_owned().concat(why),
        }
    }
}

} // verus!
