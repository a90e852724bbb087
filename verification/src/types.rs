//! What clients and servers say to each other, and the errors of a client.
use crate::text::same_text;
use vstd::prelude::*;
use vstd::string::*;

verus! {

/// A value that has been decided by the cluster, paired with the slot it
/// occupies in the commit log.
#[derive(Clone, Debug, PartialEq, Eq)]
pub struct Decision {
    /// The slot number this value was decided in.
    pub slot: u64,
    /// The opaque payload that was decided.
    pub payload: Vec<u8>,
}

impl View for Decision {
    type V = (u64, Seq<u8>);

    open spec fn view(&self) -> (u64, Seq<u8>) {
        (self.slot, self.payload@)
    }
}

/// Which consensus algorithm a node is running.
#[derive(Clone, Copy, Debug, PartialEq, Eq, Structural)]
pub enum Algorithm {
    /// Multi-Paxos (default).
    Paxos,
    /// Raft.
    Raft,
}

/// A node's current Raft role.
///
/// Paxos nodes report [`Role::NotApplicable`] because Multi-Paxos has no
/// equivalent role concept.
#[derive(Clone, Copy, Debug, PartialEq, Eq, Structural)]
pub enum Role {
    Follower,
    Candidate,
    Leader,
    /// The node does not track a role for the active algorithm (e.g. Paxos).
    NotApplicable,
}

/// The outcome of a remote call, as it is told by its code.
#[derive(Clone, Copy, Debug, PartialEq, Eq, Structural)]
pub enum RpcCode {
    Success,
    Cancelled,
    Unknown,
    InvalidArgument,
    DeadlineExceeded,
    NotFound,
    AlreadyExists,
    PermissionDenied,
    ResourceExhausted,
    FailedPrecondition,
    Aborted,
    OutOfRange,
    Unimplemented,
    Internal,
    Unavailable,
    DataLoss,
    Unauthenticated,
}

/// A remote call that failed: its code, and the failure as text.
#[derive(Clone, Debug)]
pub struct RpcStatus {
    pub code: RpcCode,
    pub text: String,
}

/// Errors returned by client operations.
#[derive(Clone, Debug)]
pub enum Error {
    /// Failure establishing the underlying transport.
    Transport(String),
    /// The server returned a failure. Its code is kept for callers that want to
    /// inspect it.
    Rpc(RpcStatus),
    /// One of the endpoints is not a valid URI.
    InvalidEndpoint(String),
    /// The list of endpoints was empty.
    NoEndpoints,
    /// The server returned a response that the client could not interpret (e.g.
    /// an unknown algorithm or role).
    Invalid(String),
}

impl Error {
    pub open spec fn text(self) -> Seq<char> {
        match self {
            Error::Transport(why) => "transport error: "@ + why@,
            Error::Rpc(status) => "rpc error: "@ + status.text@,
            Error::InvalidEndpoint(which) => "invalid endpoint: "@ + which@,
            Error::NoEndpoints => "no endpoints configured"@,
            Error::Invalid(what) => "invalid response: "@ + what@,
        }
    }

    /// The error as text.
    pub fn display(&self) -> (text: String)
        ensures
            text@ == self.text(),
    {
        match self {
            Error::Transport(why) => "transport error: ".to_owned().concat(why.as_str()),
            Error::Rpc(status) => "rpc error: ".to_owned().concat(status.text.as_str()),
            Error::InvalidEndpoint(which) => "invalid endpoint: ".to_owned().concat(which.as_str()),
            Error::NoEndpoints => "no endpoints configured".to_owned(),
            Error::Invalid(what) => "invalid response: ".to_owned().concat(what.as_str()),
        }
    }
}

/// A text as `Debug` writes it: in double quotes, with the characters that need
/// it escaped.
pub uninterp spec fn quoted_text(s: Seq<char>) -> Seq<char>;

/// Writes a text with the `Debug` of `str` in the standard library, through
/// `format!`. The result is a function of the text alone; which characters it
/// escapes, and how, is left unsaid.
#[verifier::external_body]
fn quoted(s: &str) -> (text: String)
    ensures
        text@ == quoted_text(s@),
{
    format!("{s:?}")
}

impl Algorithm {
    /// The name of the algorithm.
    pub open spec fn name(self) -> Seq<char> {
        match self {
            Algorithm::Paxos => "paxos"@,
            Algorithm::Raft => "raft"@,
        }
    }

    /// The name of the algorithm.
    pub fn as_str(self) -> (name: &'static str)
        ensures
            name@ == self.name(),
    {
        match self {
            Algorithm::Paxos => "paxos",
            Algorithm::Raft => "raft",
        }
    }

    /// The algorithm of this name, if there is one.
    pub open spec fn of(name: Seq<char>) -> Option<Algorithm> {
        if name == "paxos"@ {
            Some(Algorithm::Paxos)
        } else if name == "raft"@ {
            Some(Algorithm::Raft)
        } else {
            None
        }
    }

    /// The algorithm of this name.
    pub fn from_name(s: &str) -> (r: Result<Algorithm, Error>)
        ensures
            r is Ok <==> Algorithm::of(s@) is Some,
            r matches Ok(algorithm) ==> Algorithm::of(s@) == Some(algorithm),
            r matches Err(e) ==> e is Invalid && (e->Invalid_0)@ == "unknown algorithm: "@
                + quoted_text(s@),
    {
        if same_text(s, "paxos") {
            return Ok(Algorithm::Paxos);
        }
        if same_text(s, "raft") {
            return Ok(Algorithm::Raft);
        }
        let name: String = quoted(s);
        Err(Error::Invalid("unknown algorithm: ".to_owned().concat(name.as_str())))
    }
}

impl core::str::FromStr for Algorithm {
    type Err = Error;

    fn from_str(s: &str) -> (r: Result<Algorithm, Error>)
        ensures
            r is Ok <==> Algorithm::of(s@) is Some,
            r matches Ok(algorithm) ==> Algorithm::of(s@) == Some(algorithm),
            r matches Err(e) ==> e is Invalid && (e->Invalid_0)@ == "unknown algorithm: "@
                + quoted_text(s@),
    {
        Algorithm::from_name(s)
    }
}

impl Role {
    /// The name of the role.
    pub open spec fn name(self) -> Seq<char> {
        match self {
            Role::Follower => "follower"@,
            Role::Candidate => "candidate"@,
            Role::Leader => "leader"@,
            Role::NotApplicable => "n/a"@,
        }
    }

    /// The name of the role.
    pub fn as_str(self) -> (name: &'static str)
        ensures
            name@ == self.name(),
    {
        match self {
            Role::Follower => "follower",
            Role::Candidate => "candidate",
            Role::Leader => "leader",
            Role::NotApplicable => "n/a",
        }
    }

    /// The role of this name, if there is one.
    pub open spec fn of(name: Seq<char>) -> Option<Role> {
        if name == "follower"@ {
            Some(Role::Follower)
        } else if name == "candidate"@ {
            Some(Role::Candidate)
        } else if name == "leader"@ {
            Some(Role::Leader)
        } else if name == "n/a"@ {
            Some(Role::NotApplicable)
        } else {
            None
        }
    }

    /// The role of this name.
    pub fn from_name(s: &str) -> (r: Result<Role, Error>)
        ensures
            r is Ok <==> Role::of(s@) is Some,
            r matches Ok(role) ==> Role::of(s@) == Some(role),
            r matches Err(e) ==> e is Invalid && (e->Invalid_0)@ == "unknown role: "@ + quoted_text(
                s@,
            ),
    {
        if same_text(s, "follower") {
            return Ok(Role::Follower);
        }
        if same_text(s, "candidate") {
            return Ok(Role::Candidate);
        }
        if same_text(s, "leader") {
            return Ok(Role::Leader);
        }
        if same_text(s, "n/a") {
            return Ok(Role::NotApplicable);
        }
        let name: String = quoted(s);
        Err(Error::Invalid("unknown role: ".to_owned().concat(name.as_str())))
    }
}

impl core::str::FromStr for Role {
    type Err = Error;

    fn from_str(s: &str) -> (r: Result<Role, Error>)
        ensures
            r is Ok <==> Role::of(s@) is Some,
            r matches Ok(role) ==> Role::of(s@) == Some(role),
            r matches Err(e) ==> e is Invalid && (e->Invalid_0)@ == "unknown role: "@
                + quoted_text(s@),
    {
        Role::from_name(s)
    }
}

/// Names are read back: every algorithm is found under its name, and so is every
/// role.
pub proof fn names_are_read_back(algorithm: Algorithm, role: Role)
    ensures
        Algorithm::of(algorithm.name()) == Some(algorithm),
        Role::of(role.name()) == Some(role),
        forall|name: Seq<char>| #[trigger]
            Algorithm::of(name) == Some(algorithm) ==> name == algorithm.name(),
        forall|name: Seq<char>| #[trigger] Role::of(name) == Some(role) ==> name == role.name(),
{
    reveal_strlit("paxos");
    reveal_strlit("raft");
    reveal_strlit("follower");
    reveal_strlit("candidate");
    reveal_strlit("leader");
    reveal_strlit("n/a");
    assert("paxos"@.len() != "raft"@.len());
    assert("follower"@.len() == 8);
    assert("candidate"@.len() == 9);
    assert("leader"@.len() == 6);
    assert("n/a"@.len() == 3);
}

/// A node's state as it goes over the wire.
#[derive(Clone, Debug)]
pub struct StatusResponse {
    pub node_id: String,
    pub algorithm: String,
    pub role: String,
    pub term: u64,
    /// Empty where no leader is known.
    pub leader_id: String,
    pub log_len: u64,
    pub commit_index: Option<u64>,
    pub last_applied: Option<u64>,
}

/// Snapshot of a single node's view of the cluster.
#[derive(Clone, Debug, PartialEq, Eq)]
pub struct ClusterStatus {
    /// Stable identifier of the node that served the status request, in
    /// `name@incarnation` form.
    pub node_id: String,
    pub algorithm: Algorithm,
    pub role: Role,
    /// Current Raft term, or 0 for Paxos.
    pub term: u64,
    /// Identifier of the current leader as known to this node, or `None` if
    /// no leader is currently known.
    pub leader_id: Option<String>,
    /// Length of the local log. Always 0 for Paxos.
    pub log_len: u64,
    /// Index of the highest log entry known to be committed. `None` for Paxos
    /// or before any entries are committed.
    pub commit_index: Option<u64>,
    /// Index of the highest log entry applied to the state machine. `None` for
    /// Paxos or before any entries are applied.
    pub last_applied: Option<u64>,
}

} // verus!
