//! The decisions of a client: which endpoints it takes, when it tries again, and
//! where a watch goes on after a disconnect.
use crate::text::same_text;
use crate::types::{
    quoted_text, Algorithm, ClusterStatus, Error, Role, RpcCode, StatusResponse,
};
use crate::value::opt;
use vstd::prelude::*;
use vstd::string::*;

verus! {

/// The pause before a proposal is made again, in milliseconds.
pub const PROPOSE_RETRY_BACKOFF_MS: u64 = 100;

/// The pause before a watch is opened again, in milliseconds.
pub const RECONNECT_BACKOFF_MS: u64 = 200;

/// Whether a text is an endpoint: a `unix:` path, or a URI.
pub uninterp spec fn is_endpoint(raw: Seq<char>) -> bool;

/// Checks an endpoint with `Endpoint::from_shared` of the `tonic` crate, which
/// parses the text and opens no connection.
///
/// Whether it takes the text is a function of the text alone; the grammar of
/// URIs is left unsaid. The only failure it has is the invalid URI, and this is
/// the text of it.
#[verifier::external_body]
fn check_endpoint(raw: &String) -> (r: Result<(), String>)
    ensures
        r is Ok <==> is_endpoint(raw@),
        r matches Err(why) ==> why@ == "invalid URI"@,
{
    match tonic::transport::Endpoint::from_shared(raw.clone()) {
        Ok(_) => Ok(()),
        Err(e) => Err(e.to_string()),
    }
}

/// The first text of a list that is no endpoint, as its position; the length
/// where all are endpoints.
pub open spec fn first_bad_endpoint(endpoints: Seq<String>) -> nat
    decreases endpoints.len(),
{
    if endpoints.len() == 0 || !is_endpoint(endpoints[0]@) {
        0
    } else {
        1 + first_bad_endpoint(endpoints.drop_first())
    }
}

/// The endpoint that is told is the first that is none: every text before it is
/// one.
pub proof fn the_first_bad_endpoint_is_told(endpoints: Seq<String>)
    ensures
        first_bad_endpoint(endpoints) <= endpoints.len(),
        forall|i: int|
            0 <= i < first_bad_endpoint(endpoints) ==> is_endpoint((#[trigger] endpoints[i])@),
        first_bad_endpoint(endpoints) < endpoints.len() ==> !is_endpoint(
            endpoints[first_bad_endpoint(endpoints) as int]@,
        ),
    decreases endpoints.len(),
{
    if endpoints.len() > 0 && is_endpoint(endpoints[0]@) {
        let more = endpoints.drop_first();
        the_first_bad_endpoint_is_told(more);
        assert forall|i: int| 0 <= i < first_bad_endpoint(endpoints) implies is_endpoint(
            (#[trigger] endpoints[i])@,
        ) by {
            if i > 0 {
                assert(endpoints[i] == more[i - 1]);
            }
        }
        if first_bad_endpoint(endpoints) < endpoints.len() {
            assert(endpoints[first_bad_endpoint(endpoints) as int] == more[first_bad_endpoint(
                more,
            ) as int]);
        }
    }
}

/// Checks the endpoints of a client: there is at least one, and each is a valid
/// URI. The first that is not is told with the reason.
pub fn check_endpoints(endpoints: &Vec<String>) -> (r: Result<(), Error>)
    ensures
        r is Ok <==> endpoints.len() > 0 && first_bad_endpoint(endpoints@) == endpoints.len(),
        r matches Err(e) ==> if endpoints.len() == 0 {
            e is NoEndpoints
        } else {
            e is InvalidEndpoint && (e->InvalidEndpoint_0)@ == endpoints[first_bad_endpoint(
                endpoints@,
            ) as int]@ + ": invalid URI"@
        },
{
    if endpoints.len() == 0 {
        return Err(Error::NoEndpoints);
    }
    let mut i: usize = 0;
    assert(endpoints@.skip(0) =~= endpoints@);
    while i < endpoints.len()
        invariant
            i <= endpoints.len(),
            endpoints.len() > 0,
            first_bad_endpoint(endpoints@) == i + first_bad_endpoint(endpoints@.skip(i as int)),
        decreases endpoints.len() - i,
    {
        assert(endpoints@.skip(i as int).drop_first() =~= endpoints@.skip(i + 1));
        if let Err(why) = check_endpoint(&endpoints[i]) {
            let which: String = endpoints[i].clone().concat(": ").concat(why.as_str());
            proof {
                reveal_strlit(": ");
                reveal_strlit("invalid URI");
                reveal_strlit(": invalid URI");
                assert(": "@ + "invalid URI"@ =~= ": invalid URI"@);
                assert(which@ =~= endpoints[i as int]@ + (": "@ + "invalid URI"@));
            }
            return Err(Error::InvalidEndpoint(which));
        }
        i += 1;
    }
    Ok(())
}

/// What a client does once a proposal failed.
#[derive(Clone, Copy, Debug, PartialEq, Eq, Structural)]
pub enum Retry {
    /// Hand the failure to the caller.
    Surface,
    /// Pause, then propose once more to the endpoint at this position.
    Endpoint(usize),
    /// Pause, then propose once more over the same channel.
    SameChannel,
}

/// What follows on a failed proposal, the `attempt`-th of its kind. The first
/// is made again: at the second endpoint where the service is unavailable and
/// there is one, over the same channel where another leader superseded it.
pub open spec fn retry_after(attempt: nat, code: RpcCode, endpoints: nat) -> Retry {
    if attempt != 1 {
        Retry::Surface
    } else if code == RpcCode::Unavailable && endpoints >= 2 {
        Retry::Endpoint(1)
    } else if code == RpcCode::Aborted {
        Retry::SameChannel
    } else {
        Retry::Surface
    }
}

/// Decides what follows on a failed proposal.
pub fn plan_retry(attempt: u32, code: RpcCode, endpoints: usize) -> (retry: Retry)
    ensures
        retry == retry_after(attempt as nat, code, endpoints as nat),
        retry matches Retry::Endpoint(i) ==> i < endpoints,
{
    if attempt != 1 {
        Retry::Surface
    } else if code == RpcCode::Unavailable && endpoints >= 2 {
        Retry::Endpoint(1)
    } else if code == RpcCode::Aborted {
        Retry::SameChannel
    } else {
        Retry::Surface
    }
}

/// A client proposes at most twice: whatever the second attempt failed with, the
/// caller is told.
pub proof fn proposes_at_most_twice(attempt: nat, code: RpcCode, endpoints: nat)
    requires
        attempt >= 2,
    ensures
        retry_after(attempt, code, endpoints) == Retry::Surface,
{
}

/// Which failures of a server pass: those that say that it is not there, has no room
/// or takes too long.
pub proof fn passing_failures(code: RpcCode)
    ensures
        transient(code) <==> code == RpcCode::Unavailable || code == RpcCode::ResourceExhausted
            || code == RpcCode::DeadlineExceeded,
{
}

/// The first attempt is made again where that can help: at another endpoint where
/// the service is unavailable and there is another one, and where another leader
/// superseded it; every other failure is told at once.
pub proof fn first_failures_are_retried(code: RpcCode, endpoints: nat)
    ensures
        retry_after(1, code, endpoints) != Retry::Surface <==> (code == RpcCode::Unavailable
            && endpoints > 1) || code == RpcCode::Aborted,
        retry_after(1, code, endpoints) is Endpoint <==> code == RpcCode::Unavailable && endpoints
            > 1,
        retry_after(1, code, endpoints) matches Retry::Endpoint(i) ==> 0 < i < endpoints,
{
}

/// Whether a failure passes: the watch is opened again.
pub open spec fn transient(code: RpcCode) -> bool {
    code == RpcCode::Unavailable || code == RpcCode::ResourceExhausted || code
        == RpcCode::DeadlineExceeded
}

/// Whether a failure passes: the watch is opened again.
pub fn is_transient(code: RpcCode) -> (r: bool)
    ensures
        r == transient(code),
{
    code == RpcCode::Unavailable || code == RpcCode::ResourceExhausted || code
        == RpcCode::DeadlineExceeded
}

/// What happens to a watch.
#[derive(Debug)]
pub enum WatchEvent {
    /// It could not be opened, or it failed.
    Failed(Error),
    /// The server closed it.
    Closed,
    /// A decision came in.
    Yielded(u64),
}

/// What a watch does next.
#[derive(Debug)]
pub enum WatchStep {
    /// Wait for the next decision.
    Read,
    /// Pause, then open the watch again where it left off.
    Reopen,
    /// End with this error.
    End(Error),
}

/// A watch that opens itself again: where it began, and the last slot it yielded.
pub struct WatchCursor {
    pub start_index: u64,
    pub last_yielded: Option<u64>,
}

impl WatchCursor {
    /// The slot that the watch is opened at.
    pub open spec fn next(self) -> u64 {
        match self.last_yielded {
            Some(slot) => if slot == u64::MAX {
                slot
            } else {
                (slot + 1) as u64
            },
            None => self.start_index,
        }
    }

    /// The watch once it has yielded a slot.
    pub open spec fn noting(self, slot: u64) -> WatchCursor {
        WatchCursor { last_yielded: Some(slot), ..self }
    }

    /// A watch that has yielded nothing.
    pub fn new(start_index: u64) -> (cursor: Self)
        ensures
            cursor == (WatchCursor { start_index, last_yielded: None }),
            cursor.next() == start_index,
    {
        WatchCursor { start_index, last_yielded: None }
    }

    /// The slot that the watch is opened at: behind the last one yielded, or
    /// where it began.
    pub fn next_index(&self) -> (slot: u64)
        ensures
            slot == self.next(),
    {
        match self.last_yielded {
            Some(slot) => slot.saturating_add(1),
            None => self.start_index,
        }
    }

    /// Takes in what happened, and tells what is next. A failure of the server
    /// that passes, and a close, open the watch again; every other failure ends
    /// it.
    pub fn step(&mut self, event: WatchEvent) -> (step: WatchStep)
        ensures
            *final(self) == (match event {
                WatchEvent::Yielded(slot) => old(self).noting(slot),
                _ => *old(self),
            }),
            final(self).start_index == old(self).start_index,
            final(self).last_yielded == (match event {
                WatchEvent::Yielded(slot) => Some(slot),
                _ => old(self).last_yielded,
            }),
            match event {
                WatchEvent::Yielded(_) => step is Read,
                WatchEvent::Closed => step is Reopen,
                WatchEvent::Failed(e) => if e is Rpc && transient(e->Rpc_0.code) {
                    step is Reopen
                } else {
                    step == WatchStep::End(e)
                },
            },
    {
        match event {
            WatchEvent::Yielded(slot) => {
                self.last_yielded = Some(slot);
                WatchStep::Read
            },
            WatchEvent::Closed => WatchStep::Reopen,
            WatchEvent::Failed(e) => {
                let passes: bool = match &e {
                    Error::Rpc(status) => is_transient(status.code),
                    _ => false,
                };
                if passes {
                    WatchStep::Reopen
                } else {
                    WatchStep::End(e)
                }
            },
        }
    }
}

/// The cursor after the slots of one connection were yielded.
pub open spec fn cursor_after(cursor: WatchCursor, slots: Seq<u64>) -> WatchCursor
    decreases slots.len(),
{
    if slots.len() == 0 {
        cursor
    } else {
        cursor_after(cursor, slots.drop_last()).noting(slots.last())
    }
}

/// The slots that a watch yields over several connections.
pub open spec fn yielded(connections: Seq<Seq<u64>>) -> Seq<u64>
    decreases connections.len(),
{
    if connections.len() == 0 {
        Seq::empty()
    } else {
        yielded(connections.drop_last()) + connections.last()
    }
}

/// The cursor after several connections.
pub open spec fn cursor_over(cursor: WatchCursor, connections: Seq<Seq<u64>>) -> WatchCursor
    decreases connections.len(),
{
    if connections.len() == 0 {
        cursor
    } else {
        cursor_after(cursor_over(cursor, connections.drop_last()), connections.last())
    }
}

/// Whether every connection yields slots one after the other, from the one it
/// was opened at.
pub open spec fn in_slot_order(cursor: WatchCursor, connections: Seq<Seq<u64>>) -> bool
    decreases connections.len(),
{
    connections.len() > 0 ==> {
        let before = cursor_over(cursor, connections.drop_last());
        &&& in_slot_order(cursor, connections.drop_last())
        &&& forall|i: int|
            0 <= i < connections.last().len() ==> (#[trigger] connections.last()[i])
                == before.next() + i
    }
}

/// A watch resumes: where every connection yields slots one after the other from
/// the one it was opened at, the watch yields them one after the other from
/// where it began, over all disconnects, with none left out and none repeated.
/// Slots end with the last number there is.
pub proof fn watch_resumes(start_index: u64, connections: Seq<Seq<u64>>)
    requires
        in_slot_order((WatchCursor { start_index, last_yielded: None }), connections),
        start_index + yielded(connections).len() <= u64::MAX,
    ensures
        forall|i: int|
            0 <= i < yielded(connections).len() ==> (#[trigger] yielded(connections)[i])
                == start_index + i,
        cursor_over((WatchCursor { start_index, last_yielded: None }), connections).next()
            == start_index + yielded(connections).len(),
    decreases connections.len(),
{
    let fresh = WatchCursor { start_index, last_yielded: None };
    if connections.len() > 0 {
        let before = connections.drop_last();
        let last = connections.last();
        watch_resumes(start_index, before);
        let k = yielded(before).len();
        assert forall|i: int| 0 <= i < yielded(connections).len() implies (#[trigger] yielded(
            connections,
        )[i]) == start_index + i by {
            if i < k {
                assert(yielded(connections)[i] == yielded(before)[i]);
            } else {
                assert(yielded(connections)[i] == last[i - k]);
            }
        }
        if last.len() > 0 {
            assert(last[last.len() - 1] == start_index + k + last.len() - 1);
            assert(cursor_over(fresh, connections).last_yielded == Some(last.last()));
        }
    }
}

/// Whether a response can be read: its algorithm and its role are known.
pub open spec fn understood(response: StatusResponse) -> bool {
    Algorithm::of(response.algorithm@) is Some && Role::of(response.role@) is Some
}

/// Whether a status is what a response says; an empty leader is none.
pub open spec fn reads_as(response: StatusResponse, status: ClusterStatus) -> bool {
    &&& status.node_id@ == response.node_id@
    &&& Some(status.algorithm) == Algorithm::of(response.algorithm@)
    &&& Some(status.role) == Role::of(response.role@)
    &&& status.term == response.term
    &&& opt(status.leader_id) == (if response.leader_id@ == ""@ {
        None
    } else {
        Some(response.leader_id@)
    })
    &&& status.log_len == response.log_len
    &&& status.commit_index == response.commit_index
    &&& status.last_applied == response.last_applied
}

/// Reads a node's state as it came over the wire. An algorithm or a role that is
/// not known makes the response invalid.
pub fn read_status(response: StatusResponse) -> (r: Result<ClusterStatus, Error>)
    ensures
        r is Ok <==> understood(response),
        r matches Ok(status) ==> reads_as(response, status),
        r matches Err(e) ==> e is Invalid && (e->Invalid_0)@ == (if Algorithm::of(
            response.algorithm@,
        ) is None {
            "unknown algorithm: "@ + quoted_text(response.algorithm@)
        } else {
            "unknown role: "@ + quoted_text(response.role@)
        }),
{
    let leader_id: Option<String> = if same_text(response.leader_id.as_str(), "") {
        None
    } else {
        Some(response.leader_id)
    };
    let algorithm: Algorithm = match Algorithm::from_name(response.algorithm.as_str()) {
        Ok(algorithm) => algorithm,
        Err(e) => return Err(e),
    };
    let role: Role = match Role::from_name(response.role.as_str()) {
        Ok(role) => role,
        Err(e) => return Err(e),
    };
    Ok(
        ClusterStatus {
            node_id: response.node_id,
            algorithm,
            role,
            term: response.term,
            leader_id,
            log_len: response.log_len,
            commit_index: response.commit_index,
            last_applied: response.last_applied,
        },
    )
}

} // verus!
