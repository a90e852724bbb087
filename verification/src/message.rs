//! Messages between nodes, and the log entries they carry.
use crate::config::{node_order_is_total, node_order_is_transitive, NodeId, NodeName};
use crate::value::{opt, Value};
use vstd::prelude::*;

verus! {

/// A proposal number: a round, with ties broken by the proposer's identity.
pub type ProposalNumber = (u64, NodeId);

/// A proposal number as a mathematical value.
pub type Ballot = (u64, NodeName);

/// Whether proposal number `a` is lower than `b`.
pub open spec fn ballot_less(a: Ballot, b: Ballot) -> bool {
    a.0 < b.0 || (a.0 == b.0 && a.1.less(b.1))
}

/// Whether proposal number `a` is lower than or equal to `b`.
pub open spec fn ballot_le(a: Ballot, b: Ballot) -> bool {
    a == b || ballot_less(a, b)
}

/// Whether proposal number `a` is lower than `b`.
pub fn number_less(a: &ProposalNumber, b: &ProposalNumber) -> (r: bool)
    ensures
        r == ballot_less(a@, b@),
{
    a.0 < b.0 || (a.0 == b.0 && a.1.less(&b.1))
}

/// Whether two proposal numbers are equal.
pub fn number_same(a: &ProposalNumber, b: &ProposalNumber) -> (r: bool)
    ensures
        r == (a@ == b@),
{
    a.0 == b.0 && a.1 == b.1
}

/// Returns a copy of a proposal number.
pub fn copy_number(number: &ProposalNumber) -> (copy: ProposalNumber)
    ensures
        copy@ == number@,
{
    (number.0, number.1.clone())
}

/// Proposal numbers are totally ordered: none is lower than itself, and of two
/// different ones exactly one is the lower.
pub proof fn ballot_order_is_total(a: Ballot, b: Ballot)
    ensures
        !ballot_less(a, a),
        a != b ==> (ballot_less(a, b) != ballot_less(b, a)),
{
    node_order_is_total(a.1, b.1);
}

/// The order of proposal numbers is transitive.
pub proof fn ballot_order_is_transitive(a: Ballot, b: Ballot, c: Ballot)
    requires
        ballot_less(a, b),
        ballot_less(b, c),
    ensures
        ballot_less(a, c),
{
    if a.0 == b.0 && b.0 == c.0 {
        node_order_is_transitive(a.1, b.1, c.1);
    }
}

/// Where to send an outgoing message.
#[derive(Clone, Debug)]
pub enum SendTarget {
    /// Send to a specific peer.
    Peer(NodeId),
    /// Broadcast to all peers.
    Broadcast,
}

/// A send target as a mathematical value.
pub enum Target {
    Peer(NodeName),
    Broadcast,
}

impl View for SendTarget {
    type V = Target;

    open spec fn view(&self) -> Target {
        match self {
            SendTarget::Peer(id) => Target::Peer(id@),
            SendTarget::Broadcast => Target::Broadcast,
        }
    }
}

/// An outgoing message produced by a protocol state machine.
#[derive(Clone, Debug)]
pub struct Outgoing<M> {
    pub target: SendTarget,
    pub message: M,
}

/// An outgoing message as a mathematical value.
pub struct Packet<M> {
    pub target: Target,
    pub message: M,
}

impl<M: View> View for Outgoing<M> {
    type V = Packet<M::V>;

    open spec fn view(&self) -> Packet<M::V> {
        Packet { target: self.target@, message: self.message@ }
    }
}

/// The packets that a list of outgoing messages stands for.
pub open spec fn packets<M: View>(out: Seq<Outgoing<M>>) -> Seq<Packet<M::V>> {
    out.map_values(|o: Outgoing<M>| o@)
}

/// No messages.
pub fn no_messages<M: View>() -> (out: Vec<Outgoing<M>>)
    ensures
        packets(out@) == Seq::<Packet<M::V>>::empty(),
{
    let out: Vec<Outgoing<M>> = Vec::new();
    assert(packets(out@) =~= Seq::<Packet<M::V>>::empty());
    out
}

/// One message to one peer.
pub fn to_peer<M: View>(peer: NodeId, message: M) -> (out: Vec<Outgoing<M>>)
    ensures
        packets(out@) == seq![Packet { target: Target::Peer(peer@), message: message@ }],
{
    let mut out: Vec<Outgoing<M>> = Vec::new();
    let ghost packet = Packet { target: Target::Peer(peer@), message: message@ };
    out.push(Outgoing { target: SendTarget::Peer(peer), message });
    assert(packets(out@) =~= seq![packet]);
    out
}

/// One message to every peer.
pub fn to_all<M: View>(message: M) -> (out: Vec<Outgoing<M>>)
    ensures
        packets(out@) == seq![Packet { target: Target::Broadcast, message: message@ }],
{
    let mut out: Vec<Outgoing<M>> = Vec::new();
    let ghost packet = Packet { target: Target::Broadcast, message: message@ };
    out.push(Outgoing { target: SendTarget::Broadcast, message });
    assert(packets(out@) =~= seq![packet]);
    out
}

/// A decided value ready to be delivered.
#[derive(Clone, Debug)]
pub struct Decision<V> {
    pub slot: u64,
    pub value: V,
}

impl<V: View> View for Decision<V> {
    type V = (u64, V::V);

    open spec fn view(&self) -> (u64, V::V) {
        (self.slot, self.value@)
    }
}

/// The slot and value pairs of a list of decisions.
pub open spec fn decided<V: View>(decisions: Seq<Decision<V>>) -> Seq<(u64, V::V)> {
    decisions.map_values(|d: Decision<V>| d@)
}

/// A single replicated log entry.
#[derive(Clone, Debug, PartialEq)]
pub struct LogEntry<V> {
    pub term: u64,
    pub value: V,
}

/// A log entry as a mathematical value.
pub struct Entry<T> {
    pub term: u64,
    pub value: T,
}

impl<V: View> View for LogEntry<V> {
    type V = Entry<V::V>;

    open spec fn view(&self) -> Entry<V::V> {
        Entry { term: self.term, value: self.value@ }
    }
}

/// The entries of a log.
pub open spec fn entries_of<V: View>(log: Seq<LogEntry<V>>) -> Seq<Entry<V::V>> {
    log.map_values(|e: LogEntry<V>| e@)
}

impl<V: Value> LogEntry<V> {
    /// Returns a second copy of this entry.
    pub fn copied(&self) -> (copy: Self)
        ensures
            copy@ == self@,
    {
        LogEntry { term: self.term, value: self.value.copied() }
    }
}

/// Copies the entries of `log` from position `from` on.
pub fn copy_entries<V: Value>(log: &Vec<LogEntry<V>>, from: usize) -> (copy: Vec<LogEntry<V>>)
    requires
        from <= log.len(),
    ensures
        entries_of(copy@) == entries_of(log@).skip(from as int),
{
    let mut copy: Vec<LogEntry<V>> = Vec::new();
    let mut i: usize = from;
    while i < log.len()
        invariant
            from <= i <= log.len(),
            copy.len() == i - from,
            forall|j: int| 0 <= j < copy.len() ==> copy[j]@ == log[from + j]@,
        decreases log.len() - i,
    {
        copy.push(log[i].copied());
        i += 1;
    }
    assert(entries_of(copy@) =~= entries_of(log@).skip(from as int));
    copy
}

/// How many times a forwarded proposal may be relayed.
pub const MAX_FORWARD_HOPS: u8 = 8;

/// Raft RPC message variants used between nodes.
#[derive(Debug)]
pub enum RaftMessage<V> {
    /// Candidate -> peers: request a vote in `term`.
    RequestVote { term: u64, candidate: NodeId, last_log_index: Option<u64>, last_log_term: u64 },
    /// Voter -> candidate: response with grant/deny.
    RequestVoteResponse { term: u64, vote_granted: bool },
    /// Leader -> followers: replicate log entries (or empty heartbeat).
    AppendEntries {
        term: u64,
        leader: NodeId,
        prev_log_index: Option<u64>,
        prev_log_term: u64,
        entries: Vec<LogEntry<V>>,
        leader_commit: Option<u64>,
    },
    /// Follower -> leader: response to AppendEntries.
    AppendEntriesResponse {
        term: u64,
        success: bool,
        match_index: Option<u64>,
        conflict_term: Option<u64>,
        conflict_index: Option<u64>,
    },
    /// Follower -> leader: forward a client proposal, relayed `hops` times so far.
    Forward { value: V, hops: u8 },
}

/// A Raft message as a mathematical value.
pub enum RaftMsg<T> {
    RequestVote { term: u64, candidate: NodeName, last_log_index: Option<u64>, last_log_term: u64 },
    RequestVoteResponse { term: u64, vote_granted: bool },
    AppendEntries {
        term: u64,
        leader: NodeName,
        prev_log_index: Option<u64>,
        prev_log_term: u64,
        entries: Seq<Entry<T>>,
        leader_commit: Option<u64>,
    },
    AppendEntriesResponse {
        term: u64,
        success: bool,
        match_index: Option<u64>,
        conflict_term: Option<u64>,
        conflict_index: Option<u64>,
    },
    Forward { value: T, hops: u8 },
}

impl<V: View> View for RaftMessage<V> {
    type V = RaftMsg<V::V>;

    open spec fn view(&self) -> RaftMsg<V::V> {
        match self {
            RaftMessage::RequestVote { term, candidate, last_log_index, last_log_term } => {
                RaftMsg::RequestVote {
                    term: *term,
                    candidate: candidate@,
                    last_log_index: *last_log_index,
                    last_log_term: *last_log_term,
                }
            },
            RaftMessage::RequestVoteResponse { term, vote_granted } => {
                RaftMsg::RequestVoteResponse { term: *term, vote_granted: *vote_granted }
            },
            RaftMessage::AppendEntries {
                term,
                leader,
                prev_log_index,
                prev_log_term,
                entries,
                leader_commit,
            } => {
                RaftMsg::AppendEntries {
                    term: *term,
                    leader: leader@,
                    prev_log_index: *prev_log_index,
                    prev_log_term: *prev_log_term,
                    entries: entries_of(entries@),
                    leader_commit: *leader_commit,
                }
            },
            RaftMessage::AppendEntriesResponse {
                term,
                success,
                match_index,
                conflict_term,
                conflict_index,
            } => {
                RaftMsg::AppendEntriesResponse {
                    term: *term,
                    success: *success,
                    match_index: *match_index,
                    conflict_term: *conflict_term,
                    conflict_index: *conflict_index,
                }
            },
            RaftMessage::Forward { value, hops } => {
                RaftMsg::Forward { value: value@, hops: *hops }
            },
        }
    }
}

/// Paxos message variants used between nodes.
#[derive(Debug)]
pub enum MessageVariant<V> {
    /// Proposer -> acceptors: promise to ignore lower proposal numbers.
    Prepare { slot: u64, proposal_number: ProposalNumber },
    /// Acceptor -> proposer: promised, with what was accepted before.
    Promise {
        slot: u64,
        proposal_number: ProposalNumber,
        accepted: Option<(ProposalNumber, V)>,
    },
    /// Proposer -> acceptors: accept this value.
    Accept { slot: u64, proposal_number: ProposalNumber, value: V },
    /// Acceptor -> proposer: accepted.
    Accepted { slot: u64, proposal_number: ProposalNumber, value: V },
    /// Proposer -> everybody: the slot is decided.
    Decide { slot: u64, value: V },
    /// Acceptor -> proposer: a higher number was promised already.
    NackPrepare {
        slot: u64,
        proposal_number: ProposalNumber,
        highest_promised: ProposalNumber,
    },
    /// Acceptor -> proposer: a higher number was promised already.
    NackAccept {
        slot: u64,
        proposal_number: ProposalNumber,
        highest_promised: ProposalNumber,
    },
}

/// A Paxos message as a mathematical value.
pub enum PaxosMsg<T> {
    Prepare { slot: u64, proposal_number: Ballot },
    Promise { slot: u64, proposal_number: Ballot, accepted: Option<(Ballot, T)> },
    Accept { slot: u64, proposal_number: Ballot, value: T },
    Accepted { slot: u64, proposal_number: Ballot, value: T },
    Decide { slot: u64, value: T },
    NackPrepare { slot: u64, proposal_number: Ballot, highest_promised: Ballot },
    NackAccept { slot: u64, proposal_number: Ballot, highest_promised: Ballot },
}

impl<V: View> View for MessageVariant<V> {
    type V = PaxosMsg<V::V>;

    open spec fn view(&self) -> PaxosMsg<V::V> {
        match self {
            MessageVariant::Prepare { slot, proposal_number } => PaxosMsg::Prepare {
                slot: *slot,
                proposal_number: proposal_number@,
            },
            MessageVariant::Promise { slot, proposal_number, accepted } => PaxosMsg::Promise {
                slot: *slot,
                proposal_number: proposal_number@,
                accepted: opt(*accepted),
            },
            MessageVariant::Accept { slot, proposal_number, value } => PaxosMsg::Accept {
                slot: *slot,
                proposal_number: proposal_number@,
                value: value@,
            },
            MessageVariant::Accepted { slot, proposal_number, value } => PaxosMsg::Accepted {
                slot: *slot,
                proposal_number: proposal_number@,
                value: value@,
            },
            MessageVariant::Decide { slot, value } => PaxosMsg::Decide {
                slot: *slot,
                value: value@,
            },
            MessageVariant::NackPrepare { slot, proposal_number, highest_promised } => {
                PaxosMsg::NackPrepare {
                    slot: *slot,
                    proposal_number: proposal_number@,
                    highest_promised: highest_promised@,
                }
            },
            MessageVariant::NackAccept { slot, proposal_number, highest_promised } => {
                PaxosMsg::NackAccept {
                    slot: *slot,
                    proposal_number: proposal_number@,
                    highest_promised: highest_promised@,
                }
            },
        }
    }
}

/// What goes over the wire: a message of one algorithm or the other.
#[derive(Debug)]
pub enum WireVariant<V> {
    Paxos(MessageVariant<V>),
    Raft(RaftMessage<V>),
}

/// The model of [`WireVariant`].
pub enum Wire<T> {
    Paxos(PaxosMsg<T>),
    Raft(RaftMsg<T>),
}

impl<V: View> View for WireVariant<V> {
    type V = Wire<V::V>;

    open spec fn view(&self) -> Wire<V::V> {
        match self {
            WireVariant::Paxos(m) => Wire::Paxos(m@),
            WireVariant::Raft(m) => Wire::Raft(m@),
        }
    }
}

/// A message with its sender.
#[derive(Debug)]
pub struct Message<V> {
    pub sender: NodeId,
    pub variant: WireVariant<V>,
}

/// The packets of one algorithm as they go over the wire.
pub open spec fn wired_paxos<T>(out: Seq<Packet<PaxosMsg<T>>>) -> Seq<Packet<Wire<T>>> {
    out.map_values(
        |p: Packet<PaxosMsg<T>>| Packet { target: p.target, message: Wire::Paxos(p.message) },
    )
}

/// The packets of one algorithm as they go over the wire.
pub open spec fn wired_raft<T>(out: Seq<Packet<RaftMsg<T>>>) -> Seq<Packet<Wire<T>>> {
    out.map_values(
        |p: Packet<RaftMsg<T>>| Packet { target: p.target, message: Wire::Raft(p.message) },
    )
}

/// Wraps the messages of a Paxos node for the wire.
pub fn wire_paxos<V: View>(out: Vec<Outgoing<MessageVariant<V>>>) -> (wired: Vec<
    Outgoing<WireVariant<V>>,
>)
    ensures
        packets(wired@) == wired_paxos(packets(out@)),
{
    let mut wired: Vec<Outgoing<WireVariant<V>>> = Vec::new();
    for o in iter: out
        invariant
            wired.len() == iter.index(),
            iter.seq() == out@,
            forall|i: int|
                0 <= i < wired.len() ==> (#[trigger] wired[i])@ == (Packet {
                    target: out[i].target@,
                    message: Wire::Paxos(out[i].message@),
                }),
    {
        wired.push(Outgoing { target: o.target, message: WireVariant::Paxos(o.message) });
    }
    assert(packets(wired@) =~= wired_paxos(packets(out@)));
    wired
}

/// Wraps the messages of a Raft node for the wire.
pub fn wire_raft<V: View>(out: Vec<Outgoing<RaftMessage<V>>>) -> (wired: Vec<
    Outgoing<WireVariant<V>>,
>)
    ensures
        packets(wired@) == wired_raft(packets(out@)),
{
    let mut wired: Vec<Outgoing<WireVariant<V>>> = Vec::new();
    for o in iter: out
        invariant
            wired.len() == iter.index(),
            iter.seq() == out@,
            forall|i: int|
                0 <= i < wired.len() ==> (#[trigger] wired[i])@ == (Packet {
                    target: out[i].target@,
                    message: Wire::Raft(out[i].message@),
                }),
    {
        wired.push(Outgoing { target: o.target, message: WireVariant::Raft(o.message) });
    }
    assert(packets(wired@) =~= wired_raft(packets(out@)));
    wired
}

impl<V: Value> Clone for RaftMessage<V> {
    fn clone(&self) -> (copy: Self)
        ensures
            copy@ == self@,
    {
        match self {
            RaftMessage::RequestVote { term, candidate, last_log_index, last_log_term } =>
                RaftMessage::RequestVote {
                term: *term,
                candidate: candidate.clone(),
                last_log_index: *last_log_index,
                last_log_term: *last_log_term,
            },
            RaftMessage::RequestVoteResponse { term, vote_granted } =>
                RaftMessage::RequestVoteResponse { term: *term, vote_granted: *vote_granted },
            RaftMessage::AppendEntries {
                term,
                leader,
                prev_log_index,
                prev_log_term,
                entries,
                leader_commit,
            } => {
                let copy: Vec<LogEntry<V>> = copy_entries(entries, 0);
                assert(entries_of(entries@).skip(0) =~= entries_of(entries@));
                RaftMessage::AppendEntries {
                    term: *term,
                    leader: leader.clone(),
                    prev_log_index: *prev_log_index,
                    prev_log_term: *prev_log_term,
                    entries: copy,
                    leader_commit: *leader_commit,
                }
            },
            RaftMessage::AppendEntriesResponse {
                term,
                success,
                match_index,
                conflict_term,
                conflict_index,
            } => RaftMessage::AppendEntriesResponse {
                term: *term,
                success: *success,
                match_index: *match_index,
                conflict_term: *conflict_term,
                conflict_index: *conflict_index,
            },
            RaftMessage::Forward { value, hops } => RaftMessage::Forward {
                value: value.copied(),
                hops: *hops,
            },
        }
    }
}

impl<V: Value> Clone for MessageVariant<V> {
    fn clone(&self) -> (copy: Self)
        ensures
            copy@ == self@,
    {
        match self {
            MessageVariant::Prepare { slot, proposal_number } => MessageVariant::Prepare {
                slot: *slot,
                proposal_number: copy_number(proposal_number),
            },
            MessageVariant::Promise { slot, proposal_number, accepted } =>
                MessageVariant::Promise {
                slot: *slot,
                proposal_number: copy_number(proposal_number),
                accepted: match accepted {
                    Some(a) => Some((copy_number(&a.0), a.1.copied())),
                    None => None,
                },
            },
            MessageVariant::Accept { slot, proposal_number, value } => MessageVariant::Accept {
                slot: *slot,
                proposal_number: copy_number(proposal_number),
                value: value.copied(),
            },
            MessageVariant::Accepted { slot, proposal_number, value } =>
                MessageVariant::Accepted {
                slot: *slot,
                proposal_number: copy_number(proposal_number),
                value: value.copied(),
            },
            MessageVariant::Decide { slot, value } => MessageVariant::Decide {
                slot: *slot,
                value: value.copied(),
            },
            MessageVariant::NackPrepare { slot, proposal_number, highest_promised } =>
                MessageVariant::NackPrepare {
                slot: *slot,
                proposal_number: copy_number(proposal_number),
                highest_promised: copy_number(highest_promised),
            },
            MessageVariant::NackAccept { slot, proposal_number, highest_promised } =>
                MessageVariant::NackAccept {
                slot: *slot,
                proposal_number: copy_number(proposal_number),
                highest_promised: copy_number(highest_promised),
            },
        }
    }
}

impl<V: Value> Clone for WireVariant<V> {
    fn clone(&self) -> (copy: Self)
        ensures
            copy@ == self@,
    {
        match self {
            WireVariant::Paxos(m) => WireVariant::Paxos(m.clone()),
            WireVariant::Raft(m) => WireVariant::Raft(m.clone()),
        }
    }
}

impl<V: Value> Clone for Message<V> {
    fn clone(&self) -> (copy: Self)
        ensures
            copy.sender@ == self.sender@,
            copy.variant@ == self.variant@,
    {
        Message { sender: self.sender.clone(), variant: self.variant.clone() }
    }
}

} // verus!
