//! A cluster of Raft nodes over a network that may lose, repeat, delay and
//! reorder messages, and what holds of it whatever the network does. A node may
//! end at any time, and starts again from what it persisted.
use crate::config::{NodeName, RaftConfig};
use crate::message::{Entry, Packet, RaftMsg, Target};
use crate::quorum::{is_quorum, quorums_meet};
use crate::raft_laws::{
    a_cut_flush_takes_nothing_back, flushing_keeps_the_mirror, held_at, lemma_held_bounds,
    lemma_learn_core, lemma_placing_core, lemma_truncation, lemma_vote_given, not_before, Event,
};
use crate::raft_model::{
    after, decisions_between, has_term, has_term_from, held, holds_prev, is_last_of_term,
    is_quorum_index, last_index, last_term, placed, quorum_index, replicated_on, up_to_date,
    verified_index, written, RaftState, Role,
};
use crate::storage::RaftStored;
use vstd::prelude::*;

verus! {

/// A message on its way.
pub struct Envelope<T> {
    pub src: NodeName,
    pub dst: Target,
    pub msg: RaftMsg<T>,
}

/// A cluster: its nodes, every message ever sent, and what happened so far.
#[verifier::ext_equal]
#[verifier::reject_recursive_types(T)]
pub struct Cluster<T> {
    pub members: Set<NodeName>,
    pub nodes: Map<NodeName, RaftState<T>>,
    pub net: Set<Envelope<T>>,
    /// The vote that a node cast in a term.
    pub votes: Map<(NodeName, u64), NodeName>,
    /// The log with which a node stood for election in a term.
    pub stood: Map<(NodeName, u64), Seq<Entry<T>>>,
    /// The leader of a term.
    pub leaders: Map<u64, NodeName>,
    /// The log of the leader of a term.
    pub led: Map<u64, Seq<Entry<T>>>,
    /// A node held the log of the leader of a term up to an index.
    pub acks: Set<(NodeName, u64, u64)>,
    /// A node delivered a value for a slot.
    pub decided: Set<(NodeName, u64, T)>,
}

/// What can happen in a cluster.
pub enum Action<T> {
    /// A node receives a message, perhaps not for the first time.
    Deliver { node: NodeName, envelope: Envelope<T>, now: u64, timeout: u64 },
    /// Time passes at a node.
    Tick { node: NodeName, now: u64, timeout: u64 },
    /// A value is proposed at a node.
    Propose { node: NodeName, value: T, now: u64 },
    /// The decisions and lost proposals of a node are taken.
    Collect { node: NodeName },
    /// A node restarts from its storage, in which the decisions of some of the
    /// slots it applied were saved, and in which the commit index may lag: it is
    /// written last.
    Restart { node: NodeName, saved: Set<u64>, commit: Option<u64>, now: u64, timeout: u64 },
    /// A node ends while it writes down what an event changed, and restarts: of
    /// term, vote and truncation the first `count` are written. A node that ends
    /// later than that has its log written: that is the event, whose messages may
    /// all be lost, and a restart.
    Cut { node: NodeName, during: Event<T>, count: int, saved: Set<u64>, now: u64, timeout: u64 },
}

/// What the storage of a node holds once all is written, but for its decisions.
pub open spec fn kept_by<T>(s: RaftState<T>) -> RaftStored<T> {
    RaftStored {
        decisions: Map::empty(),
        term: s.current_term,
        voted_for: s.voted_for,
        log: s.log,
        commit_index: s.commit_index,
    }
}

/// The envelopes of a list of packets.
pub open spec fn sent<T>(src: NodeName, out: Seq<Packet<RaftMsg<T>>>) -> Set<Envelope<T>> {
    Set::new(
        |e: Envelope<T>|
            exists|i: int|
                #![trigger out[i]]
                0 <= i < out.len() && e == (Envelope {
                    src,
                    dst: out[i].target,
                    msg: out[i].message,
                }),
    )
}

/// Whether one of the packets gives a vote.
pub open spec fn gives_vote<T>(out: Seq<Packet<RaftMsg<T>>>) -> bool {
    exists|i: int| #![trigger out[i]] 0 <= i < out.len() && is_vote(out[i].message)
}

/// Whether a message gives a vote.
pub open spec fn is_vote<T>(message: RaftMsg<T>) -> bool {
    match message {
        RaftMsg::RequestVoteResponse { vote_granted, .. } => vote_granted,
        _ => false,
    }
}

/// Whether one of the packets acknowledges the log of `term` up to `index`.
pub open spec fn acknowledges<T>(out: Seq<Packet<RaftMsg<T>>>, term: u64, index: u64) -> bool {
    exists|i: int| #![trigger out[i]] 0 <= i < out.len() && is_ack(out[i].message, term, index)
}

/// Whether a message acknowledges the log of `term` up to `index`.
pub open spec fn is_ack<T>(message: RaftMsg<T>, term: u64, index: u64) -> bool {
    match message {
        RaftMsg::AppendEntriesResponse { term: t, success, match_index, .. } => success && t == term
            && match_index == Some(index),
        _ => false,
    }
}

impl<T> Cluster<T> {
    /// Fresh nodes and an empty network.
    pub open spec fn init(self) -> bool {
        &&& self.members.finite()
        &&& 0 < self.members.len() <= usize::MAX
        &&& self.nodes.dom() == self.members
        &&& forall|n: NodeName| #[trigger]
            self.members.contains(n) ==> exists|config: RaftConfig, deadline: u64|
                self.nodes[n] == #[trigger] RaftState::<T>::initial(
                    n,
                    self.members.len() as usize,
                    config,
                    deadline,
                )
        &&& self.net == Set::<Envelope<T>>::empty()
        &&& self.votes == Map::<(NodeName, u64), NodeName>::empty()
        &&& self.stood == Map::<(NodeName, u64), Seq<Entry<T>>>::empty()
        &&& self.leaders == Map::<u64, NodeName>::empty()
        &&& self.led == Map::<u64, Seq<Entry<T>>>::empty()
        &&& self.acks == Set::<(NodeName, u64, u64)>::empty()
        &&& self.decided == Set::<(NodeName, u64, T)>::empty()
    }

    /// The cluster after `node` went over to state `s`, wrote what had to be
    /// persisted, and sent `out`.
    pub open spec fn performed(
        self,
        node: NodeName,
        s: RaftState<T>,
        out: Seq<Packet<RaftMsg<T>>>,
    ) -> Cluster<T> {
        let before = self.nodes[node];
        let leads = s.role == Role::Leader;
        let stands = s.voted_for == Some(node) && s.current_term > before.current_term;
        Cluster {
            members: self.members,
            nodes: self.nodes.insert(node, s.persisted()),
            net: self.net.union(sent(node, out)),
            votes: if s.voted_for is Some && (stands || gives_vote(out)) {
                self.votes.insert((node, s.current_term), s.voted_for->0)
            } else {
                self.votes
            },
            stood: if stands {
                self.stood.insert((node, s.current_term), before.log)
            } else {
                self.stood
            },
            leaders: if leads {
                self.leaders.insert(s.current_term, node)
            } else {
                self.leaders
            },
            led: if leads {
                self.led.insert(s.current_term, s.log)
            } else {
                self.led
            },
            acks: Set::new(
                |a: (NodeName, u64, u64)|
                    self.acks.contains(a) || (a.0 == node && a.1 == s.current_term && ((leads
                        && a.2 < s.log.len()) || acknowledges(out, a.1, a.2))),
            ),
            decided: Set::new(
                |d: (NodeName, u64, T)|
                    self.decided.contains(d) || (d.0 == node && s.pending_decisions.contains(
                        (d.1, d.2),
                    )),
            ),
        }
    }

    /// Whether `envelope` can reach `node`: nodes talk to others only.
    pub open spec fn reaches(self, envelope: Envelope<T>, node: NodeName) -> bool {
        &&& self.net.contains(envelope)
        &&& envelope.src != node
        &&& envelope.dst == Target::Broadcast || envelope.dst == Target::Peer(node)
    }

    /// Whether an action can happen: an election needs a term behind the
    /// current one, and a log fits into memory.
    pub open spec fn enabled(self, action: Action<T>) -> bool {
        let node = node_of(action);
        let s = self.nodes[node];
        &&& self.members.contains(node)
        &&& self.outcome(action).0.log.len() <= u64::MAX
        &&& match action {
            Action::Deliver { envelope, .. } => self.reaches(envelope, node),
            Action::Tick { now, .. } => s.election_due(now) ==> s.current_term < u64::MAX,
            Action::Restart { saved, commit, .. } => applied_by(s, saved) && not_before(
                commit,
                s.commit_index,
            ),
            Action::Cut { during, count, saved, .. } => {
                &&& 0 <= count <= 3
                &&& applied_by(s, saved)
                &&& s.allows(during)
                &&& s.after_event(during).log.len() <= u64::MAX
                &&& during matches Event::Receive { from, message, .. } ==> exists|dst: Target|
                    #[trigger]
                    self.reaches(Envelope { src: from, dst, msg: message }, node)
            },
            _ => true,
        }
    }

    /// The state and messages that an action results in at its node.
    pub open spec fn outcome(self, action: Action<T>) -> (RaftState<T>, Seq<Packet<RaftMsg<T>>>) {
        let s = self.nodes[node_of(action)];
        match action {
            Action::Deliver { node, envelope, now, timeout } => s.receive(
                envelope.src,
                envelope.msg,
                now,
                timeout,
            ),
            Action::Tick { node, now, timeout } => s.tick(now, timeout),
            Action::Propose { node, value, now } => s.propose(value, now),
            Action::Collect { node } => (
                RaftState { pending_decisions: Seq::empty(), lost_proposals: Seq::empty(), ..s },
                Seq::empty(),
            ),
            Action::Restart { node, saved, commit, now, timeout } => (
                s.restored(s.current_term, s.voted_for, s.log, saved, commit, now, timeout),
                Seq::empty(),
            ),
            Action::Cut { node, during, count, saved, now, timeout } => {
                let p = written(kept_by(s), s.after_event(during).persist_intent().first(count));
                (
                    s.restored(p.term, p.voted_for, p.log, saved, p.commit_index, now, timeout),
                    Seq::empty(),
                )
            },
        }
    }

    /// The cluster after an action.
    pub open spec fn after_action(self, action: Action<T>) -> Cluster<T> {
        let (s, out) = self.outcome(action);
        self.performed(node_of(action), s, out)
    }
}

/// The node at which an action happens.
pub open spec fn node_of<T>(action: Action<T>) -> NodeName {
    match action {
        Action::Deliver { node, .. } => node,
        Action::Tick { node, .. } => node,
        Action::Propose { node, .. } => node,
        Action::Collect { node } => node,
        Action::Restart { node, .. } => node,
        Action::Cut { node, .. } => node,
    }
}

/// Whether all of these slots were applied at a node.
pub open spec fn applied_by<T>(s: RaftState<T>, slots: Set<u64>) -> bool {
    forall|slot: u64| #[trigger]
        slots.contains(slot) ==> s.last_applied is Some && slot <= s.last_applied->0
}

/// Whether `log` agrees with `other` up to and including `i`.
pub open spec fn agrees<T>(log: Seq<Entry<T>>, other: Seq<Entry<T>>, i: int) -> bool {
    i < log.len() && i < other.len() && log.take(i + 1) == other.take(i + 1)
}

/// Whether an append carries a part of the leader's log, to an end that does
/// not lie before what the leader was elected with.
pub open spec fn carries<T>(
    log: Seq<Entry<T>>,
    base: int,
    prev: Option<u64>,
    prev_term: u64,
    entries: Seq<Entry<T>>,
) -> bool {
    let start = after(prev);
    let end = start + entries.len();
    &&& base <= end <= log.len()
    &&& entries == log.subrange(start, end)
    &&& prev matches Some(p) ==> log[p as int].term == prev_term
}

impl<T> Cluster<T> {
    /// Entry `i` of a log was made by the leader of its term, and the log up to
    /// it is that leader's.
    pub open spec fn entry_ok(self, log: Seq<Entry<T>>, i: int) -> bool {
        self.leaders.contains_key(log[i].term) && agrees(log, self.led[log[i].term], i)
    }

    /// Every entry of a log was made by the leader of its term.
    pub open spec fn log_ok(self, log: Seq<Entry<T>>) -> bool {
        forall|i: int| 0 <= i < log.len() ==> #[trigger] self.entry_ok(log, i)
    }

    /// A node voted for `candidate` in `term`.
    pub open spec fn voted(self, n: NodeName, term: u64, candidate: NodeName) -> bool {
        self.votes.contains_key((n, term)) && self.votes[(n, term)] == candidate
    }

    /// A majority voted for the leader of `term`.
    pub open spec fn elected(self, term: u64) -> bool {
        exists|q: Set<NodeName>| #[trigger]
            is_quorum(self.members, q) && forall|v: NodeName| #[trigger]
                q.contains(v) ==> self.voted(v, term, self.leaders[term])
    }

    /// What holds of a node.
    pub open spec fn node_ok(self, n: NodeName) -> bool {
        let s = self.nodes[n];
        &&& s.node_id == n
        &&& s.total_nodes == self.members.len()
        &&& s.clean()
        &&& s.log.len() <= u64::MAX
        &&& self.log_ok(s.log)
        &&& forall|i: int| 0 <= i < s.log.len() ==> (#[trigger] s.log[i]).term <= s.current_term
        &&& forall|t: u64| #[trigger]
            self.votes.contains_key((n, t)) ==> 1 <= t <= s.current_term
        &&& self.votes.contains_key((n, s.current_term)) ==> s.voted_for == Some(
            self.votes[(n, s.current_term)],
        )
        &&& s.role == Role::Candidate ==> {
            &&& s.voted_for == Some(n)
            &&& self.stood.contains_key((n, s.current_term))
            &&& self.stood[(n, s.current_term)] == s.log
            &&& self.votes_ok(s.votes_received, s.current_term, n)
            &&& self.leaders.contains_key(s.current_term) ==> self.leaders[s.current_term] != n
        }
        &&& s.role == Role::Leader ==> {
            &&& s.voted_for == Some(n)
            &&& self.leaders.contains_key(s.current_term)
            &&& self.leaders[s.current_term] == n
            &&& self.led[s.current_term] == s.log
        }
        &&& self.members.len() == 1 && s.voted_for is Some ==> s.role == Role::Leader
    }

    /// Every counted vote was cast.
    pub open spec fn votes_ok(self, counted: Set<NodeName>, term: u64, n: NodeName) -> bool {
        forall|v: NodeName| #[trigger]
            counted.contains(v) ==> self.members.contains(v) && self.voted(v, term, n)
    }

    /// What holds of a candidacy.
    pub open spec fn stood_ok(self, n: NodeName, t: u64) -> bool {
        let log = self.stood[(n, t)];
        &&& self.members.contains(n)
        &&& t <= self.nodes[n].current_term
        &&& self.voted(n, t, n)
        &&& self.log_ok(log)
        &&& log.len() <= u64::MAX
        &&& forall|i: int| 0 <= i < log.len() ==> (#[trigger] log[i]).term < t
    }

    /// The log with which the leader of a term was elected.
    pub open spec fn base(self, t: u64) -> Seq<Entry<T>> {
        self.stood[(self.leaders[t], t)]
    }

    /// What holds of the leader of a term.
    pub open spec fn leader_ok(self, t: u64) -> bool {
        let m = self.leaders[t];
        let log = self.led[t];
        &&& self.members.contains(m)
        &&& t <= self.nodes[m].current_term
        &&& self.stood.contains_key((m, t))
        &&& self.base(t).len() <= log.len() <= u64::MAX
        &&& log.take(self.base(t).len() as int) == self.base(t)
        &&& forall|i: int|
            self.base(t).len() <= i < log.len() ==> (#[trigger] log[i]).term == t
        &&& self.elected(t)
    }

    /// What holds of a message.
    pub open spec fn msg_ok(self, e: Envelope<T>) -> bool {
        &&& self.members.contains(e.src)
        &&& match e.msg {
            RaftMsg::RequestVote { term, candidate, last_log_index, last_log_term } => {
                &&& candidate == e.src
                &&& self.stood.contains_key((e.src, term))
                &&& last_log_index == last_index(self.stood[(e.src, term)])
                &&& last_log_term == last_term(self.stood[(e.src, term)])
            },
            RaftMsg::RequestVoteResponse { term, vote_granted } => vote_granted ==> {
                &&& e.dst is Peer
                &&& self.voted(e.src, term, e.dst->Peer_0)
            },
            RaftMsg::AppendEntries {
                term,
                leader,
                prev_log_index,
                prev_log_term,
                entries,
                leader_commit,
            } => {
                &&& leader == e.src
                &&& self.leaders.contains_key(term)
                &&& self.leaders[term] == e.src
                &&& carries(
                    self.led[term],
                    self.base(term).len() as int,
                    prev_log_index,
                    prev_log_term,
                    entries,
                )
            },
            RaftMsg::AppendEntriesResponse { term, success, match_index, .. } => success
                && match_index is Some ==> {
                &&& self.leaders.contains_key(term)
                &&& e.dst == Target::Peer(self.leaders[term])
                &&& self.acks.contains((e.src, term, match_index->0))
            },
            RaftMsg::Forward { .. } => true,
        }
    }

    /// What holds of an acknowledgement.
    pub open spec fn ack_ok(self, a: (NodeName, u64, u64)) -> bool {
        &&& self.members.contains(a.0)
        &&& a.1 <= self.nodes[a.0].current_term
        &&& self.leaders.contains_key(a.1)
        &&& a.2 < self.led[a.1].len()
    }

    /// What holds whatever the network does.
    pub open spec fn inv(self) -> bool {
        &&& self.members.finite()
        &&& 0 < self.members.len() <= usize::MAX
        &&& self.nodes.dom() == self.members
        &&& forall|n: NodeName| #[trigger] self.members.contains(n) ==> self.node_ok(n)
        &&& forall|n: NodeName, t: u64| #[trigger]
            self.stood.contains_key((n, t)) ==> self.stood_ok(n, t)
        &&& forall|t: u64| #[trigger] self.leaders.contains_key(t) ==> self.leader_ok(t)
        &&& forall|e: Envelope<T>| #[trigger] self.net.contains(e) ==> self.msg_ok(e)
        &&& forall|a: (NodeName, u64, u64)| #[trigger] self.acks.contains(a) ==> self.ack_ok(a)
        &&& forall|n: NodeName, t: u64| #[trigger]
            self.votes.contains_key((n, t)) ==> self.members.contains(n)
    }

    /// What was, stays: votes, candidacies, leaders and acknowledgements are
    /// kept, the logs of leaders grow, and terms go on.
    pub open spec fn grows_to(self, c: Cluster<T>) -> bool {
        &&& c.members == self.members
        &&& forall|n: NodeName| #[trigger]
            self.members.contains(n) ==> self.nodes[n].current_term <= c.nodes[n].current_term
        &&& forall|n: NodeName, t: u64| #[trigger]
            self.votes.contains_key((n, t)) ==> c.votes.contains_key((n, t)) && c.votes[(n, t)]
                == self.votes[(n, t)]
        &&& forall|n: NodeName, t: u64| #[trigger]
            self.stood.contains_key((n, t)) ==> c.stood.contains_key((n, t)) && c.stood[(n, t)]
                == self.stood[(n, t)]
        &&& forall|t: u64| #[trigger]
            self.leaders.contains_key(t) ==> c.leaders.contains_key(t) && c.leaders[t]
                == self.leaders[t] && self.led[t].len() <= c.led[t].len() && c.led[t].take(
                self.led[t].len() as int,
            ) == self.led[t]
        &&& forall|a: (NodeName, u64, u64)| #[trigger] self.acks.contains(a) ==> c.acks.contains(a)
    }

    /// Only `n` has acted: what others voted and stood with is as it was, and
    /// only a log that `n` leads has grown, by entries of its term.
    pub open spec fn acted_only(self, c: Cluster<T>, n: NodeName) -> bool {
        &&& forall|m: NodeName, t: u64|
            m != n ==> (#[trigger] c.votes.contains_key((m, t)) == self.votes.contains_key((m, t)))
        &&& forall|m: NodeName, t: u64|
            m != n ==> (#[trigger] c.stood.contains_key((m, t)) == self.stood.contains_key((m, t)))
        &&& forall|m: NodeName| m != n ==> #[trigger] c.nodes[m] == self.nodes[m]
        &&& c.nodes.dom() == self.nodes.dom()
        &&& forall|t: u64| #[trigger]
            c.leaders.contains_key(t) ==> self.leaders.contains_key(t) || c.leaders[t] == n
        &&& forall|t: u64| #[trigger]
            self.leaders.contains_key(t) ==> c.led[t] == self.led[t] || (self.leaders[t] == n
                && c.led[t].len() <= u64::MAX && forall|i: int|
                self.led[t].len() <= i < c.led[t].len() ==> (#[trigger] c.led[t][i]).term == t)
    }
}

/// A log agrees with what a log grew to as far as it agreed before.
pub proof fn lemma_agrees_grown<T>(log: Seq<Entry<T>>, a: Seq<Entry<T>>, b: Seq<Entry<T>>, i: int)
    requires
        agrees(log, a, i),
        0 <= i,
        a.len() <= b.len(),
        b.take(a.len() as int) == a,
    ensures
        agrees(log, b, i),
{
    assert(b.take(i + 1) =~= b.take(a.len() as int).take(i + 1));
}

pub proof fn lemma_log_ok_grown<T>(c: Cluster<T>, d: Cluster<T>, log: Seq<Entry<T>>)
    requires
        c.grows_to(d),
        c.log_ok(log),
    ensures
        d.log_ok(log),
{
    assert forall|i: int| 0 <= i < log.len() implies #[trigger] d.entry_ok(log, i) by {
        assert(c.entry_ok(log, i));
        let t = log[i].term;
        lemma_agrees_grown(log, c.led[t], d.led[t], i);
    }
}

pub proof fn lemma_carries_grown<T>(
    a: Seq<Entry<T>>,
    b: Seq<Entry<T>>,
    base: int,
    prev: Option<u64>,
    prev_term: u64,
    entries: Seq<Entry<T>>,
)
    requires
        carries(a, base, prev, prev_term, entries),
        a.len() <= b.len(),
        b.take(a.len() as int) == a,
    ensures
        carries(b, base, prev, prev_term, entries),
{
    let start = after(prev);
    let end = start + entries.len();
    assert(b.subrange(start, end) =~= b.take(a.len() as int).subrange(start, end));
    if let Some(p) = prev {
        assert(b.take(a.len() as int)[p as int] == b[p as int]);
    }
}

pub proof fn lemma_msg_grown<T>(c: Cluster<T>, d: Cluster<T>, e: Envelope<T>)
    requires
        c.inv(),
        c.grows_to(d),
        c.msg_ok(e),
    ensures
        d.msg_ok(e),
{
    match e.msg {
        RaftMsg::AppendEntries { term, leader, prev_log_index, prev_log_term, entries, .. } => {
            assert(c.leader_ok(term));
            lemma_carries_grown(
                c.led[term],
                d.led[term],
                c.base(term).len() as int,
                prev_log_index,
                prev_log_term,
                entries,
            );
        },
        _ => {},
    }
}

pub proof fn lemma_elected_grown<T>(c: Cluster<T>, d: Cluster<T>, t: u64)
    requires
        c.grows_to(d),
        c.leaders.contains_key(t),
        c.elected(t),
    ensures
        d.elected(t),
{
    let q = choose|q: Set<NodeName>| #[trigger]
        is_quorum(c.members, q) && forall|v: NodeName| #[trigger]
            q.contains(v) ==> c.voted(v, t, c.leaders[t]);
    assert(is_quorum(d.members, q));
    assert forall|v: NodeName| #[trigger] q.contains(v) implies d.voted(v, t, d.leaders[t]) by {
        assert(c.voted(v, t, c.leaders[t]));
        assert(c.votes.contains_key((v, t)));
    }
}

/// What held before an action of `n` still holds, but for `n` itself.
pub proof fn lemma_frame<T>(c: Cluster<T>, d: Cluster<T>, n: NodeName)
    requires
        c.inv(),
        c.grows_to(d),
        c.acted_only(d, n),
        c.members.contains(n),
    ensures
        forall|m: NodeName| #[trigger] c.members.contains(m) && m != n ==> d.node_ok(m),
        forall|m: NodeName, t: u64| #[trigger]
            c.stood.contains_key((m, t)) ==> d.stood_ok(m, t),
        forall|t: u64| #[trigger] c.leaders.contains_key(t) ==> d.leader_ok(t),
        forall|e: Envelope<T>| #[trigger] c.net.contains(e) ==> d.msg_ok(e),
        forall|a: (NodeName, u64, u64)| #[trigger] c.acks.contains(a) ==> d.ack_ok(a),
{
    assert forall|m: NodeName| #[trigger] c.members.contains(m) && m != n implies d.node_ok(
        m,
    ) by {
        assert(c.node_ok(m));
        let s = c.nodes[m];
        assert(d.nodes[m] == s);
        lemma_log_ok_grown(c, d, s.log);
        assert forall|t: u64| #[trigger] d.votes.contains_key((m, t)) implies 1 <= t
            <= s.current_term by {
            assert(c.votes.contains_key((m, t)));
        }
        assert(d.votes.contains_key((m, s.current_term)) == c.votes.contains_key(
            (m, s.current_term),
        ));
        if s.role == Role::Candidate {
            assert(c.stood.contains_key((m, s.current_term)));
            assert forall|v: NodeName| #[trigger] s.votes_received.contains(v) implies
                d.members.contains(v) && d.voted(v, s.current_term, m) by {
                assert(c.voted(v, s.current_term, m));
                assert(c.votes.contains_key((v, s.current_term)));
            }
            if d.leaders.contains_key(s.current_term) && d.leaders[s.current_term] == m {
                assert(c.leaders.contains_key(s.current_term));
            }
        }
    }
    assert forall|m: NodeName, t: u64| #[trigger] c.stood.contains_key((m, t)) implies d.stood_ok(
        m,
        t,
    ) by {
        assert(c.stood_ok(m, t));
        lemma_log_ok_grown(c, d, c.stood[(m, t)]);
        assert(c.votes.contains_key((m, t)));
    }
    assert forall|t: u64| #[trigger] c.leaders.contains_key(t) implies d.leader_ok(t) by {
        assert(c.leader_ok(t));
        lemma_elected_grown(c, d, t);
        let old_log = c.led[t];
        let new_log = d.led[t];
        let base = c.base(t);
        assert(c.stood.contains_key((c.leaders[t], t)));
        assert(d.base(t) == base);
        assert(new_log.take(base.len() as int) =~= new_log.take(old_log.len() as int).take(
            base.len() as int,
        ));
        assert forall|i: int| base.len() <= i < new_log.len() implies (
        #[trigger] new_log[i]).term == t by {
            if i < old_log.len() {
                assert(new_log.take(old_log.len() as int)[i] == new_log[i]);
                assert(old_log[i].term == t);
            }
        }
    }
    assert forall|e: Envelope<T>| #[trigger] c.net.contains(e) implies d.msg_ok(e) by {
        lemma_msg_grown(c, d, e);
    }
    assert forall|a: (NodeName, u64, u64)| #[trigger] c.acks.contains(a) implies d.ack_ok(a) by {
        assert(c.ack_ok(a));
        assert(c.leaders.contains_key(a.1));
    }
}

/// Whether `s` can follow on the state of `n`: the term goes on, a vote within a
/// term stays, and a leader is the one leader of its term and only appends.
pub open spec fn follows_on<T>(c: Cluster<T>, n: NodeName, s: RaftState<T>) -> bool {
    let before = c.nodes[n];
    &&& c.members.contains(n)
    &&& s.current_term >= before.current_term
    &&& s.current_term == before.current_term && before.voted_for is Some ==> s.voted_for
        == before.voted_for
    &&& s.log.len() <= u64::MAX
    &&& s.role == Role::Leader && c.leaders.contains_key(s.current_term) ==> {
        let old_log = c.led[s.current_term];
        &&& c.leaders[s.current_term] == n
        &&& old_log.len() <= s.log.len()
        &&& s.log.take(old_log.len() as int) == old_log
        &&& forall|i: int|
            old_log.len() <= i < s.log.len() ==> (#[trigger] s.log[i]).term == s.current_term
    }
}

pub proof fn lemma_performed_grows<T>(
    c: Cluster<T>,
    n: NodeName,
    s: RaftState<T>,
    out: Seq<Packet<RaftMsg<T>>>,
)
    requires
        c.inv(),
        follows_on(c, n, s),
    ensures
        c.grows_to(c.performed(n, s, out)),
        c.acted_only(c.performed(n, s, out), n),
{
    let d = c.performed(n, s, out);
    assert(c.node_ok(n));
    assert forall|m: NodeName, t: u64| #[trigger] c.votes.contains_key((m, t)) implies
        d.votes.contains_key((m, t)) && d.votes[(m, t)] == c.votes[(m, t)] by {
        if m == n && t == s.current_term {
            assert(t <= c.nodes[n].current_term);
        }
    }
    assert forall|m: NodeName, t: u64| #[trigger] c.stood.contains_key((m, t)) implies
        d.stood.contains_key((m, t)) && d.stood[(m, t)] == c.stood[(m, t)] by {
        assert(c.stood_ok(m, t));
    }
    assert forall|t: u64| #[trigger] c.leaders.contains_key(t) implies d.leaders.contains_key(t)
        && d.leaders[t] == c.leaders[t] && c.led[t].len() <= d.led[t].len() && d.led[t].take(
        c.led[t].len() as int,
    ) == c.led[t] by {
        if s.role == Role::Leader && t == s.current_term {
        } else {
            assert(c.led[t].take(c.led[t].len() as int) =~= c.led[t]);
        }
    }
    assert(d.nodes.dom() =~= c.nodes.dom());
}

/// The invariant holds after an action if it does at the node that acted.
pub proof fn lemma_performed_inv<T>(
    c: Cluster<T>,
    n: NodeName,
    s: RaftState<T>,
    out: Seq<Packet<RaftMsg<T>>>,
)
    requires
        c.inv(),
        follows_on(c, n, s),
        ({
            let d = c.performed(n, s, out);
            &&& d.node_ok(n)
            &&& s.voted_for == Some(n) && s.current_term > c.nodes[n].current_term ==> d.stood_ok(
                n,
                s.current_term,
            )
            &&& s.role == Role::Leader ==> d.leader_ok(s.current_term)
            &&& forall|i: int|
                0 <= i < out.len() ==> d.msg_ok(
                    Envelope { src: n, dst: (#[trigger] out[i]).target, msg: out[i].message },
                )
            &&& forall|m: u64|
                acknowledges(out, s.current_term, m) ==> #[trigger] d.ack_ok(
                    (n, s.current_term, m),
                )
        }),
    ensures
        c.performed(n, s, out).inv(),
{
    let d = c.performed(n, s, out);
    lemma_performed_grows(c, n, s, out);
    lemma_frame(c, d, n);
    assert forall|m: NodeName| #[trigger] d.members.contains(m) implies d.node_ok(m) by {
        assert(c.members.contains(m));
    }
    assert forall|m: NodeName, t: u64| #[trigger] d.stood.contains_key((m, t)) implies d.stood_ok(
        m,
        t,
    ) by {
        if c.stood.contains_key((m, t)) {
        }
    }
    assert forall|t: u64| #[trigger] d.leaders.contains_key(t) implies d.leader_ok(t) by {
        if c.leaders.contains_key(t) {
        }
    }
    assert forall|e: Envelope<T>| #[trigger] d.net.contains(e) implies d.msg_ok(e) by {
        if c.net.contains(e) {
        } else {
            let i = choose|i: int|
                #![trigger out[i]]
                0 <= i < out.len() && e == (Envelope {
                    src: n,
                    dst: out[i].target,
                    msg: out[i].message,
                });
            assert(d.msg_ok(Envelope { src: n, dst: out[i].target, msg: out[i].message }));
        }
    }
    assert forall|a: (NodeName, u64, u64)| #[trigger] d.acks.contains(a) implies d.ack_ok(a) by {
        if c.acks.contains(a) {
        } else if acknowledges(out, a.1, a.2) {
            assert(d.ack_ok((n, s.current_term, a.2)));
        } else {
            assert(d.leader_ok(s.current_term));
            assert(d.led[s.current_term] == s.log);
        }
    }
    assert forall|m: NodeName, t: u64| #[trigger] d.votes.contains_key((m, t)) implies
        d.members.contains(m) by {
        if c.votes.contains_key((m, t)) {
        }
    }
}

/// Whether a step leaves the log as it is, casts no vote and takes no lead.
pub open spec fn passive<T>(c: Cluster<T>, n: NodeName, s: RaftState<T>, out: Seq<Packet<RaftMsg<T>>>) -> bool {
    let before = c.nodes[n];
    &&& c.members.contains(n)
    &&& s.node_id == n
    &&& s.total_nodes == before.total_nodes
    &&& s.log == before.log
    &&& s.current_term >= before.current_term
    &&& s.current_term == before.current_term ==> {
        &&& s.voted_for == before.voted_for
        &&& s.role == before.role || (s.role == Role::Follower && c.members.len() > 1)
        &&& s.role == Role::Candidate ==> c.votes_ok(s.votes_received, s.current_term, n)
    }
    &&& s.current_term > before.current_term ==> s.voted_for is None && s.role == Role::Follower
    &&& gives_vote(out) ==> c.votes.contains_key((n, s.current_term))
    &&& forall|i: int|
        0 <= i < out.len() ==> c.msg_ok(
            Envelope { src: n, dst: (#[trigger] out[i]).target, msg: out[i].message },
        )
    &&& forall|t: u64, m: u64| !#[trigger] acknowledges(out, t, m)
}

pub proof fn lemma_passive<T>(
    c: Cluster<T>,
    n: NodeName,
    s: RaftState<T>,
    out: Seq<Packet<RaftMsg<T>>>,
)
    requires
        c.inv(),
        passive(c, n, s, out),
    ensures
        follows_on(c, n, s),
        c.performed(n, s, out).inv(),
{
    let before = c.nodes[n];
    let d = c.performed(n, s, out);
    assert(c.node_ok(n));
    if s.role == Role::Leader {
        assert(c.leader_ok(s.current_term));
        assert(s.log.take(s.log.len() as int) =~= s.log);
    }
    lemma_performed_grows(c, n, s, out);
    lemma_frame(c, d, n);
    lemma_log_ok_grown(c, d, s.log);
    assert(d.node_ok(n)) by {
        assert forall|t: u64| #[trigger] d.votes.contains_key((n, t)) implies 1 <= t
            <= s.current_term by {
            if c.votes.contains_key((n, t)) {
            }
        }
        if s.current_term > before.current_term {
            assert(!c.votes.contains_key((n, s.current_term)));
        }
        if s.role == Role::Candidate {
            assert forall|v: NodeName| #[trigger] s.votes_received.contains(v) implies
                d.members.contains(v) && d.voted(v, s.current_term, n) by {
                assert(c.voted(v, s.current_term, n));
                assert(c.votes.contains_key((v, s.current_term)));
            }
        }
    }
    assert forall|i: int| 0 <= i < out.len() implies d.msg_ok(
        Envelope { src: n, dst: (#[trigger] out[i]).target, msg: out[i].message },
    ) by {
        lemma_msg_grown(
            c,
            d,
            Envelope { src: n, dst: out[i].target, msg: out[i].message },
        );
    }
    lemma_performed_inv(c, n, s, out);
}

/// Whether a step casts a vote for another node.
pub open spec fn votes_for<T>(
    c: Cluster<T>,
    n: NodeName,
    s: RaftState<T>,
    out: Seq<Packet<RaftMsg<T>>>,
    candidate: NodeName,
) -> bool {
    let before = c.nodes[n];
    &&& c.members.contains(n)
    &&& c.members.len() > 1
    &&& candidate != n
    &&& s.node_id == n
    &&& s.total_nodes == before.total_nodes
    &&& s.log == before.log
    &&& s.current_term >= before.current_term
    &&& s.current_term >= 1
    &&& s.voted_for == Some(candidate)
    &&& s.current_term == before.current_term ==> (before.voted_for is None || before.voted_for
        == Some(candidate)) && s.role == before.role
    &&& s.current_term > before.current_term ==> s.role == Role::Follower
    &&& out == seq![
        Packet {
            target: Target::Peer(candidate),
            message: RaftMsg::<T>::RequestVoteResponse {
                term: s.current_term,
                vote_granted: true,
            },
        },
    ]
}

pub proof fn lemma_vote<T>(
    c: Cluster<T>,
    n: NodeName,
    s: RaftState<T>,
    out: Seq<Packet<RaftMsg<T>>>,
    candidate: NodeName,
)
    requires
        c.inv(),
        votes_for(c, n, s, out, candidate),
    ensures
        follows_on(c, n, s),
        c.performed(n, s, out).inv(),
{
    let before = c.nodes[n];
    let d = c.performed(n, s, out);
    assert(c.node_ok(n));
    assert(s.role == Role::Follower);
    lemma_performed_grows(c, n, s, out);
    lemma_frame(c, d, n);
    lemma_log_ok_grown(c, d, s.log);
    assert(d.node_ok(n)) by {
        assert forall|t: u64| #[trigger] d.votes.contains_key((n, t)) implies 1 <= t
            <= s.current_term by {
            if c.votes.contains_key((n, t)) {
            }
        }
    }
    lemma_performed_inv(c, n, s, out);
}

/// Whether a step stands for election.
pub open spec fn stands<T>(c: Cluster<T>, n: NodeName, s: RaftState<T>, out: Seq<Packet<RaftMsg<T>>>) -> bool {
    let before = c.nodes[n];
    &&& c.members.contains(n)
    &&& c.members.len() > 1
    &&& s.node_id == n
    &&& s.total_nodes == before.total_nodes
    &&& s.log == before.log
    &&& s.current_term == before.current_term + 1
    &&& s.role == Role::Candidate
    &&& s.voted_for == Some(n)
    &&& s.votes_received == set![n]
    &&& out == seq![
        Packet {
            target: Target::Broadcast,
            message: RaftMsg::<T>::RequestVote {
                term: s.current_term,
                candidate: n,
                last_log_index: last_index(s.log),
                last_log_term: last_term(s.log),
            },
        },
    ]
}

/// A candidacy in a new term is as it should be.
pub proof fn lemma_new_candidacy<T>(
    c: Cluster<T>,
    n: NodeName,
    s: RaftState<T>,
    out: Seq<Packet<RaftMsg<T>>>,
)
    requires
        c.inv(),
        c.members.contains(n),
        s.current_term > c.nodes[n].current_term,
        s.voted_for == Some(n),
        c.grows_to(c.performed(n, s, out)),
    ensures
        c.performed(n, s, out).stood_ok(n, s.current_term),
        c.performed(n, s, out).stood[(n, s.current_term)] == c.nodes[n].log,
        !c.stood.contains_key((n, s.current_term)),
        !c.votes.contains_key((n, s.current_term)),
        c.leaders.contains_key(s.current_term) ==> c.leaders[s.current_term] != n,
{
    let d = c.performed(n, s, out);
    assert(c.node_ok(n));
    lemma_log_ok_grown(c, d, c.nodes[n].log);
    if c.stood.contains_key((n, s.current_term)) {
        assert(c.stood_ok(n, s.current_term));
    }
    if c.leaders.contains_key(s.current_term) {
        assert(c.leader_ok(s.current_term));
    }
    assert forall|i: int| 0 <= i < c.nodes[n].log.len() implies (
    #[trigger] c.nodes[n].log[i]).term < s.current_term by {}
}

pub proof fn lemma_stand<T>(
    c: Cluster<T>,
    n: NodeName,
    s: RaftState<T>,
    out: Seq<Packet<RaftMsg<T>>>,
)
    requires
        c.inv(),
        stands(c, n, s, out),
    ensures
        follows_on(c, n, s),
        c.performed(n, s, out).inv(),
{
    let before = c.nodes[n];
    let d = c.performed(n, s, out);
    assert(c.node_ok(n));
    lemma_performed_grows(c, n, s, out);
    lemma_frame(c, d, n);
    lemma_log_ok_grown(c, d, s.log);
    lemma_new_candidacy(c, n, s, out);
    assert(d.node_ok(n)) by {
        assert forall|t: u64| #[trigger] d.votes.contains_key((n, t)) implies 1 <= t
            <= s.current_term by {
            if c.votes.contains_key((n, t)) {
            }
        }
        assert(d.votes_ok(s.votes_received, s.current_term, n));
    }
    lemma_performed_inv(c, n, s, out);
}

/// The log of a leader is made of its own entries and of those of the leaders
/// before it.
pub proof fn lemma_led_ok<T>(c: Cluster<T>, t: u64)
    requires
        c.inv(),
        c.leaders.contains_key(t),
    ensures
        c.log_ok(c.led[t]),
        forall|i: int| 0 <= i < c.led[t].len() ==> (#[trigger] c.led[t][i]).term <= t,
        forall|i: int|
            0 <= i < c.base(t).len() ==> (#[trigger] c.led[t][i]).term < t && c.led[t][i]
                == c.base(t)[i],
{
    assert(c.leader_ok(t));
    let log = c.led[t];
    let base = c.base(t);
    assert(c.stood_ok(c.leaders[t], t));
    assert forall|i: int| 0 <= i < base.len() implies (#[trigger] log[i]).term < t && log[i]
        == base[i] by {
        assert(log.take(base.len() as int)[i] == log[i]);
        assert(base[i].term < t);
    }
    assert forall|i: int| 0 <= i < log.len() implies #[trigger] c.entry_ok(log, i) by {
        if i < base.len() {
            assert(c.entry_ok(base, i));
            assert(log.take(i + 1) =~= base.take(i + 1)) by {
                assert(log.take(i + 1) =~= log.take(base.len() as int).take(i + 1));
            }
        }
    }
}

/// Every part of a leader's log can be sent.
pub proof fn lemma_append_from<T>(c: Cluster<T>, n: NodeName, s: RaftState<T>, from: int)
    requires
        0 <= from <= s.log.len(),
        s.log.len() <= u64::MAX,
        c.led[s.current_term] == s.log,
        c.base(s.current_term).len() <= s.log.len(),
        s.node_id == n,
        c.leaders.contains_key(s.current_term),
        c.leaders[s.current_term] == n,
        c.members.contains(n),
    ensures
        forall|dst: Target|
            c.msg_ok(Envelope { src: n, dst, msg: #[trigger] s.append_from(from) }),
        forall|t: u64, m: u64| !#[trigger] is_ack(s.append_from(from), t, m),
{
    assert(s.log.skip(from) =~= s.log.subrange(from, s.log.len() as int));
}

/// Whether a step takes the lead with the votes of `q`, and tells the others, if
/// it comes to that.
pub open spec fn wins<T>(
    c: Cluster<T>,
    n: NodeName,
    s: RaftState<T>,
    out: Seq<Packet<RaftMsg<T>>>,
    q: Set<NodeName>,
) -> bool {
    let before = c.nodes[n];
    &&& c.members.contains(n)
    &&& s.node_id == n
    &&& s.total_nodes == before.total_nodes
    &&& s.role == Role::Leader
    &&& s.voted_for == Some(n)
    &&& (s.current_term == before.current_term && before.role == Role::Candidate) || (
    s.current_term == before.current_term + 1 && c.members.len() == 1)
    &&& is_quorum(c.members, q)
    &&& forall|v: NodeName| #[trigger] q.contains(v) ==> v == n || c.voted(v, s.current_term, n)
    &&& before.log.len() <= s.log.len() <= u64::MAX
    &&& s.log.take(before.log.len() as int) == before.log
    &&& forall|i: int|
        before.log.len() <= i < s.log.len() ==> (#[trigger] s.log[i]).term == s.current_term
    &&& out == Seq::<Packet<RaftMsg<T>>>::empty() || out == seq![
        Packet {
            target: Target::Broadcast,
            message: s.append_from(before.log.len() as int),
        },
    ]
}

pub proof fn lemma_win<T>(
    c: Cluster<T>,
    n: NodeName,
    s: RaftState<T>,
    out: Seq<Packet<RaftMsg<T>>>,
    q: Set<NodeName>,
)
    requires
        c.inv(),
        wins(c, n, s, out, q),
    ensures
        follows_on(c, n, s),
        !c.leaders.contains_key(s.current_term),
        c.performed(n, s, out).inv(),
        c.performed(n, s, out).base(s.current_term) == c.nodes[n].log,
{
    let before = c.nodes[n];
    let t = s.current_term;
    let d = c.performed(n, s, out);
    assert(c.node_ok(n));
    // No other node leads this term: two majorities would share a voter.
    if c.leaders.contains_key(t) {
        assert(c.leader_ok(t));
        let p = choose|p: Set<NodeName>| #[trigger]
            is_quorum(c.members, p) && forall|v: NodeName| #[trigger]
                p.contains(v) ==> c.voted(v, t, c.leaders[t]);
        let v = quorums_meet(c.members, p, q);
        assert(c.voted(v, t, c.leaders[t]));
        assert(c.votes.contains_key((v, t)));
        if t > before.current_term {
            assert(c.node_ok(v));
            assert(c.members =~= set![n]) by {
                lemma_only_member(c, n);
            }
            assert(v == n);
            assert(false);
        } else {
            assert(c.voted(n, t, n));
            assert(c.leaders[t] == n);
            assert(false);
        }
    }
    lemma_performed_grows(c, n, s, out);
    lemma_frame(c, d, n);
    if t > before.current_term {
        lemma_new_candidacy(c, n, s, out);
    } else {
        assert(c.stood_ok(n, t));
    }
    assert(d.stood_ok(n, t));
    assert(d.base(t) == before.log);
    assert(d.leader_ok(t)) by {
        assert(d.elected(t)) by {
            assert(is_quorum(d.members, q));
            assert forall|v: NodeName| #[trigger] q.contains(v) implies d.voted(
                v,
                t,
                d.leaders[t],
            ) by {
                if v != n {
                    assert(c.voted(v, t, n));
                    assert(c.votes.contains_key((v, t)));
                }
            }
        }
    }
    lemma_log_ok_grown(c, d, before.log);
    assert(d.log_ok(s.log)) by {
        assert forall|i: int| 0 <= i < s.log.len() implies #[trigger] d.entry_ok(s.log, i) by {
            if i < before.log.len() {
                assert(d.entry_ok(before.log, i));
                assert(s.log.take(i + 1) =~= before.log.take(i + 1)) by {
                    assert(s.log.take(i + 1) =~= s.log.take(before.log.len() as int).take(i + 1));
                }
                assert(s.log.take(before.log.len() as int)[i] == s.log[i]);
            }
        }
    }
    assert(d.node_ok(n)) by {
        assert forall|u: u64| #[trigger] d.votes.contains_key((n, u)) implies 1 <= u <= t by {
            if c.votes.contains_key((n, u)) {
            }
        }
        assert forall|i: int| 0 <= i < s.log.len() implies (#[trigger] s.log[i]).term <= t by {
            if i < before.log.len() {
                assert(s.log.take(before.log.len() as int)[i] == s.log[i]);
            }
        }
    }
    lemma_append_from(d, n, s, before.log.len() as int);
    lemma_performed_inv(c, n, s, out);
}

/// A cluster of one has one member.
pub proof fn lemma_only_member<T>(c: Cluster<T>, n: NodeName)
    requires
        c.members.finite(),
        c.members.len() == 1,
        c.members.contains(n),
    ensures
        c.members == set![n],
{
    assert forall|m: NodeName| c.members.contains(m) implies m == n by {
        if m != n {
            vstd::set_lib::lemma_len_subset(set![n, m], c.members);
            assert(set![n, m].len() == 2);
        }
    }
    assert(c.members =~= set![n]);
}

/// Whether a step extends the log of a leader.
pub open spec fn extends<T>(c: Cluster<T>, n: NodeName, s: RaftState<T>, out: Seq<Packet<RaftMsg<T>>>) -> bool {
    let before = c.nodes[n];
    &&& c.members.contains(n)
    &&& s.node_id == n
    &&& s.total_nodes == before.total_nodes
    &&& before.role == Role::Leader
    &&& s.role == Role::Leader
    &&& s.current_term == before.current_term
    &&& s.voted_for == before.voted_for
    &&& before.log.len() <= s.log.len() <= u64::MAX
    &&& s.log.take(before.log.len() as int) == before.log
    &&& forall|i: int|
        before.log.len() <= i < s.log.len() ==> (#[trigger] s.log[i]).term == s.current_term
    &&& out == seq![
        Packet {
            target: Target::Broadcast,
            message: s.append_from(before.log.len() as int),
        },
    ]
}

pub proof fn lemma_extend<T>(
    c: Cluster<T>,
    n: NodeName,
    s: RaftState<T>,
    out: Seq<Packet<RaftMsg<T>>>,
)
    requires
        c.inv(),
        extends(c, n, s, out),
    ensures
        follows_on(c, n, s),
        c.performed(n, s, out).inv(),
{
    let before = c.nodes[n];
    let t = s.current_term;
    let d = c.performed(n, s, out);
    assert(c.node_ok(n));
    assert(c.leader_ok(t));
    lemma_performed_grows(c, n, s, out);
    lemma_frame(c, d, n);
    assert(d.leader_ok(t));
    lemma_log_ok_grown(c, d, before.log);
    assert(d.log_ok(s.log)) by {
        assert forall|i: int| 0 <= i < s.log.len() implies #[trigger] d.entry_ok(s.log, i) by {
            if i < before.log.len() {
                assert(d.entry_ok(before.log, i));
                assert(s.log.take(i + 1) =~= before.log.take(i + 1)) by {
                    assert(s.log.take(i + 1) =~= s.log.take(before.log.len() as int).take(i + 1));
                }
                assert(s.log.take(before.log.len() as int)[i] == s.log[i]);
            }
        }
    }
    assert(d.node_ok(n)) by {
        assert forall|u: u64| #[trigger] d.votes.contains_key((n, u)) implies 1 <= u <= t by {
            if c.votes.contains_key((n, u)) {
            }
        }
        assert forall|i: int| 0 <= i < s.log.len() implies (#[trigger] s.log[i]).term <= t by {
            if i < before.log.len() {
                assert(s.log.take(before.log.len() as int)[i] == s.log[i]);
            }
        }
    }
    lemma_append_from(d, n, s, before.log.len() as int);
    lemma_performed_inv(c, n, s, out);
}

/// Whether a step takes over the log of the leader of its term, up to `end` at
/// least, and acknowledges it up to there.
pub open spec fn takes_over<T>(
    c: Cluster<T>,
    n: NodeName,
    s: RaftState<T>,
    out: Seq<Packet<RaftMsg<T>>>,
    end: int,
) -> bool {
    let before = c.nodes[n];
    let t = s.current_term;
    &&& c.members.contains(n)
    &&& c.members.len() > 1
    &&& s.node_id == n
    &&& s.total_nodes == before.total_nodes
    &&& s.role == Role::Follower
    &&& t >= before.current_term
    &&& t == before.current_term ==> s.voted_for == before.voted_for
    &&& t > before.current_term ==> s.voted_for is None
    &&& c.leaders.contains_key(t)
    &&& 0 < end <= s.log.len() <= c.led[t].len()
    &&& s.log == c.led[t].take(s.log.len() as int)
    &&& out.len() > 0
    &&& out[0] == (Packet {
        target: Target::Peer(c.leaders[t]),
        message: RaftMsg::<T>::AppendEntriesResponse {
            term: t,
            success: true,
            match_index: Some((end - 1) as u64),
            conflict_term: None,
            conflict_index: None,
        },
    })
    &&& forall|i: int| 1 <= i < out.len() ==> (#[trigger] out[i]).message is Forward
}

pub proof fn lemma_take_over<T>(
    c: Cluster<T>,
    n: NodeName,
    s: RaftState<T>,
    out: Seq<Packet<RaftMsg<T>>>,
    end: int,
)
    requires
        c.inv(),
        takes_over(c, n, s, out, end),
    ensures
        follows_on(c, n, s),
        c.performed(n, s, out).inv(),
        c.performed(n, s, out).acks.contains((n, s.current_term, (end - 1) as u64)),
        forall|m: u64|
            acknowledges(out, s.current_term, m) <==> m == (end - 1) as u64,
{
    let before = c.nodes[n];
    let t = s.current_term;
    let d = c.performed(n, s, out);
    assert(c.node_ok(n));
    assert(c.leader_ok(t));
    assert(is_ack(out[0].message, t, (end - 1) as u64));
    assert forall|m: u64| acknowledges(out, t, m) <==> m == (end - 1) as u64 by {
        if acknowledges(out, t, m) {
            let i = choose|i: int|
                #![trigger out[i]]
                0 <= i < out.len() && is_ack(out[i].message, t, m);
            if i >= 1 {
                assert(out[i].message is Forward);
            }
        }
    }
    lemma_performed_grows(c, n, s, out);
    lemma_frame(c, d, n);
    lemma_led_ok(c, t);
    let log = c.led[t];
    assert(c.log_ok(s.log)) by {
        assert forall|i: int| 0 <= i < s.log.len() implies #[trigger] c.entry_ok(s.log, i) by {
            assert(c.entry_ok(log, i));
            assert(s.log.take(i + 1) =~= log.take(i + 1));
        }
    }
    lemma_log_ok_grown(c, d, s.log);
    assert(d.node_ok(n)) by {
        assert forall|u: u64| #[trigger] d.votes.contains_key((n, u)) implies 1 <= u <= t by {
            if c.votes.contains_key((n, u)) {
            }
        }
        assert forall|i: int| 0 <= i < s.log.len() implies (#[trigger] s.log[i]).term <= t by {
            assert(s.log[i] == log[i]);
        }
        if t > before.current_term {
            assert(!c.votes.contains_key((n, t)));
        }
    }
    assert(d.acks.contains((n, t, (end - 1) as u64)));
    assert forall|i: int| 0 <= i < out.len() implies d.msg_ok(
        Envelope { src: n, dst: (#[trigger] out[i]).target, msg: out[i].message },
    ) by {
        if i >= 1 {
            assert(out[i].message is Forward);
        }
    }
    lemma_performed_inv(c, n, s, out);
}

/// A log that holds what an append builds on becomes, by the append, the log of
/// the leader up to where the append ends.
pub proof fn lemma_placed<T>(
    c: Cluster<T>,
    t: u64,
    log: Seq<Entry<T>>,
    prev: Option<u64>,
    prev_term: u64,
    entries: Seq<Entry<T>>,
)
    requires
        c.inv(),
        c.leaders.contains_key(t),
        c.log_ok(log),
        carries(c.led[t], c.base(t).len() as int, prev, prev_term, entries),
        holds_prev(log, prev, prev_term),
    ensures
        placed(log, after(prev), entries) == c.led[t].take(after(prev) + entries.len()),
{
    let full = c.led[t];
    let start = after(prev);
    let end = start + entries.len();
    lemma_led_ok(c, t);
    lemma_held_bounds(log, start, entries, 0);
    let k = held(log, start, entries, 0);
    let at = start + k;
    // The last entry held is an entry of the leader's log, and so is what lies before it.
    if at > 0 {
        let i = at - 1;
        if k > 0 {
            assert(held_at(log, start, entries, k - 1));
            assert(entries[k - 1] == full[i]);
        }
        assert(i < log.len() && log[i].term == full[i].term);
        assert(c.entry_ok(log, i));
        assert(c.entry_ok(full, i));
        assert(log.take(at) == full.take(at));
    } else {
        assert(log.take(0) =~= full.take(0));
    }
    assert(entries.skip(k) =~= full.subrange(at, end));
    assert(full.take(at) + full.subrange(at, end) =~= full.take(end));
}

/// There are two members where one receives a message of the other.
pub proof fn lemma_two_members<T>(c: Cluster<T>, n: NodeName, m: NodeName)
    requires
        c.members.finite(),
        c.members.contains(n),
        c.members.contains(m),
        n != m,
    ensures
        c.members.len() > 1,
{
    vstd::set_lib::lemma_len_subset(set![n, m], c.members);
    assert(set![n, m].len() == 2);
}

/// The commit index, what was applied and what is to be delivered are as they
/// were.
pub open spec fn commit_kept<T>(before: RaftState<T>, s: RaftState<T>) -> bool {
    &&& s.commit_index == before.commit_index
    &&& s.last_applied == before.last_applied
    &&& s.pending_decisions == before.pending_decisions
}

/// A vote request is answered with a vote or with nothing that matters.
pub proof fn lemma_on_request_vote<T>(
    c: Cluster<T>,
    n: NodeName,
    e: Envelope<T>,
    now: u64,
    timeout: u64,
)
    requires
        c.inv(),
        c.members.contains(n),
        c.reaches(e, n),
        e.msg is RequestVote,
    ensures
        ({
            let before = c.nodes[n];
            let (s, out) = before.receive(e.src, e.msg, now, timeout);
            let term = e.msg->RequestVote_term;
            &&& commit_kept(before, s)
            &&& s.match_index == before.match_index
            &&& passive(c, n, s, out) || (votes_for(c, n, s, out, e.src) && s.current_term == term
                && c.stood.contains_key((e.src, term)) && up_to_date(
                before.log,
                last_term(c.stood[(e.src, term)]),
                last_index(c.stood[(e.src, term)]),
            ))
        }),
{
    let before = c.nodes[n];
    assert(c.node_ok(n));
    assert(c.msg_ok(e));
    lemma_two_members(c, n, e.src);
    let (s, out) = before.receive(e.src, e.msg, now, timeout);
    match e.msg {
        RaftMsg::RequestVote { term, candidate, last_log_index, last_log_term } => {
            let s1 = before.caught_up(e.msg, now, timeout);
            assert(c.stood_ok(e.src, term));
            assert(c.votes.contains_key((e.src, term)));
            assert(c.node_ok(e.src));
            if s1.grants(term, candidate, last_log_index, last_log_term) {
                assert(s1.current_term == term);
                assert(votes_for(c, n, s, out, e.src));
            } else {
                assert(passive(c, n, s, out));
            }
        },
        _ => {},
    }
}

/// A vote is counted, and with a majority of them the node takes the lead.
pub proof fn lemma_on_vote_response<T>(
    c: Cluster<T>,
    n: NodeName,
    e: Envelope<T>,
    now: u64,
    timeout: u64,
)
    requires
        c.inv(),
        c.members.contains(n),
        c.reaches(e, n),
        e.msg is RequestVoteResponse,
        c.nodes[n].receive(e.src, e.msg, now, timeout).0.log.len() <= u64::MAX,
    ensures
        ({
            let before = c.nodes[n];
            let (s, out) = before.receive(e.src, e.msg, now, timeout);
            ||| passive(c, n, s, out) && commit_kept(before, s) && (s.match_index
                == before.match_index)
            ||| exists|q: Set<NodeName>| #[trigger] wins(c, n, s, out, q) && led_from(before, s)
        }),
{
    let before = c.nodes[n];
    assert(c.node_ok(n));
    assert(c.msg_ok(e));
    lemma_two_members(c, n, e.src);
    let (s, out) = before.receive(e.src, e.msg, now, timeout);
    match e.msg {
        RaftMsg::RequestVoteResponse { term, vote_granted } => {
            let s1 = before.caught_up(e.msg, now, timeout);
            if s1.role == Role::Candidate && term == s1.current_term && vote_granted {
                assert(s1 == before);
                assert(e.dst == Target::Peer(n));
                assert(c.voted(e.src, term, n));
                let q = before.votes_received.insert(e.src);
                let s2 = RaftState { votes_received: q, ..before };
                assert(c.votes_ok(q, term, n));
                if q.len() >= before.quorum() {
                    lemma_lead(s2, now);
                    assert(q.subset_of(c.members));
                    assert(is_quorum(c.members, q));
                    assert(wins(c, n, s, out, q));
                } else {
                    assert(passive(c, n, s, out));
                }
            } else {
                assert(passive(c, n, s, out));
            }
        },
        _ => {},
    }
}

/// What a new leader has of the state before: only its own acknowledgement, and
/// a commit index that it counted itself or had before.
pub open spec fn led_from<T>(before: RaftState<T>, s: RaftState<T>) -> bool {
    &&& forall|q: NodeName| #[trigger]
        s.match_index.contains_key(q) ==> q == s.node_id && s.match_index[q] is Some
            && s.match_index[q]->0 < s.log.len()
    &&& commit_kept(before, s) || counted(before, s) || restores(before, s)
}

/// Whether no more is committed than was before, and no more applied than is
/// committed.
pub open spec fn restores<T>(before: RaftState<T>, s: RaftState<T>) -> bool {
    &&& s.pending_decisions.len() == 0
    &&& s.commit_index matches Some(x) ==> before.commit_index is Some && x
        <= before.commit_index->0
    &&& s.last_applied matches Some(a) ==> s.commit_index is Some && a <= s.commit_index->0
}

/// The commit index moved to an entry of the leader's term that a majority
/// acknowledged.
pub open spec fn counted<T>(before: RaftState<T>, s: RaftState<T>) -> bool {
    &&& s.commit_index is Some
    &&& s.commit_index->0 < s.log.len()
    &&& s.log[s.commit_index->0 as int].term == s.current_term
    &&& replicated_on(s.match_index, s.commit_index->0).len() >= s.quorum()
    &&& before.beyond_commit(s.commit_index->0)
    &&& s.last_applied == s.commit_index
    &&& s.pending_decisions == before.pending_decisions + decisions_between(
        s.log,
        before.last_applied,
        s.commit_index->0,
    )
}

/// What a leader's count of acknowledgements does.
pub proof fn lemma_advance<T>(s: RaftState<T>)
    ensures
        ({
            let t = s.advance_commit();
            &&& commit_kept(s, t) || counted(s, t)
            &&& t == (RaftState {
                commit_index: t.commit_index,
                pending_persist_commit_index: t.pending_persist_commit_index,
                pending_decisions: t.pending_decisions,
                last_applied: t.last_applied,
                ..s
            })
        }),
{
    match quorum_index(s.match_index, s.quorum()) {
        Some(i) => {
            assert(is_quorum_index(s.match_index, s.quorum(), i));
        },
        None => {},
    }
}

/// What taking the lead does.
pub proof fn lemma_lead<T>(s: RaftState<T>, now: u64)
    requires
        s.lead(now).0.log.len() <= u64::MAX,
        s.log.len() <= u64::MAX,
    ensures
        ({
            let (t, out) = s.lead(now);
            &&& t.node_id == s.node_id
            &&& t.total_nodes == s.total_nodes
            &&& t.current_term == s.current_term
            &&& t.voted_for == s.voted_for
            &&& t.role == Role::Leader
            &&& s.log.len() <= t.log.len()
            &&& t.log.take(s.log.len() as int) == s.log
            &&& forall|i: int|
                s.log.len() <= i < t.log.len() ==> (#[trigger] t.log[i]).term == s.current_term
            &&& out == seq![
                Packet {
                    target: Target::Broadcast,
                    message: t.append_from(s.log.len() as int),
                },
            ]
            &&& led_from(s, t)
        }),
{
    let fresh = RaftState {
        role: Role::Leader,
        leader: Some(s.node_id),
        next_index: Map::empty(),
        match_index: Map::empty(),
        pending_proposals: Seq::empty(),
        ..s
    };
    if s.pending_proposals.len() == 0 {
        assert(s.log.take(s.log.len() as int) =~= s.log);
    } else {
        let e = fresh.extended(s.pending_proposals);
        lemma_advance(e);
        assert(e.log.take(s.log.len() as int) =~= s.log);
    }
    let (t, out) = s.lead(now);
    assert(out =~= seq![
        Packet { target: Target::Broadcast, message: t.append_from(s.log.len() as int) },
    ]);
}

/// The commit index moved as far as the leader's, within the log.
pub open spec fn learned<T>(before: RaftState<T>, s: RaftState<T>, leader_commit: Option<u64>) -> bool {
    &&& leader_commit is Some
    &&& s.commit_index is Some
    &&& s.commit_index->0 <= leader_commit->0
    &&& s.commit_index->0 < s.log.len()
    &&& before.beyond_commit(s.commit_index->0)
    &&& s.last_applied == s.commit_index
    &&& s.pending_decisions == before.pending_decisions + decisions_between(
        s.log,
        before.last_applied,
        s.commit_index->0,
    )
}

/// A node that follows the leader of its term takes over an append that fits its
/// log, or nothing that matters happens.
pub proof fn lemma_accepted_append<T>(
    c: Cluster<T>,
    n: NodeName,
    f: RaftState<T>,
    leader: NodeName,
    prev: Option<u64>,
    prev_term: u64,
    entries: Seq<Entry<T>>,
    leader_commit: Option<u64>,
)
    requires
        c.inv(),
        c.members.contains(n),
        c.members.len() > 1,
        ({
            let before = c.nodes[n];
            let t = f.current_term;
            &&& f.node_id == n
            &&& f.total_nodes == before.total_nodes
            &&& f.role == Role::Follower
            &&& f.log == before.log
            &&& commit_kept(before, f)
            &&& t >= before.current_term
            &&& t == before.current_term ==> f.voted_for == before.voted_for
            &&& t > before.current_term ==> f.voted_for is None
            &&& c.leaders.contains_key(t)
            &&& c.leaders[t] == leader
            &&& carries(c.led[t], c.base(t).len() as int, prev, prev_term, entries)
        }),
        holds_prev(f.log, prev, prev_term),
    ensures
        ({
            let before = c.nodes[n];
            let (s, out) = f.accept_append(f.current_term, leader, prev, entries, leader_commit);
            ||| passive(c, n, s, out) && commit_kept(before, s) && s.role != Role::Leader
            ||| {
                &&& takes_over(c, n, s, out, after(prev) + entries.len())
                &&& s.current_term == f.current_term
                &&& verified_index(prev, entries.len() as int) is Some
                &&& forall|j: int|
                    s.log.len() <= j < before.log.len() ==> (#[trigger] before.log[j]).term
                        != s.current_term
                &&& commit_kept(before, s) || learned(before, s, leader_commit)
            }
        }),
{
    let t = f.current_term;
    let verified = verified_index(prev, entries.len() as int);
    let placed = f.placing(t, prev, entries);
    let done = placed.learn_commit(leader_commit, verified);
    let (s, out) = f.accept_append(f.current_term, leader, prev, entries, leader_commit);
    let end = after(prev) + entries.len();
    assert(c.node_ok(n));
    assert(c.leader_ok(t));
    lemma_placing_core(f, t, prev, entries);
    lemma_learn_core(placed, leader_commit, verified);
    assert forall|i: int| 1 <= i < out.len() implies (#[trigger] out[i]).message is Forward by {}
    if verified is None {
        assert(placed == f);
        assert(done == placed);
        lemma_no_acks(out);
        assert forall|i: int| 0 <= i < out.len() implies c.msg_ok(
            Envelope { src: n, dst: (#[trigger] out[i]).target, msg: out[i].message },
        ) by {
            if i > 0 {
                assert(out[i].message is Forward);
            }
        }
        assert(passive(c, n, s, out));
    } else {
        lemma_taken_log(c, t, f, prev, prev_term, entries);
        assert(verified == Some((end - 1) as u64));
        assert(takes_over(c, n, s, out, end));
    }
}

/// An append is taken over, or nothing that matters happens.
pub proof fn lemma_on_append<T>(
    c: Cluster<T>,
    n: NodeName,
    e: Envelope<T>,
    now: u64,
    timeout: u64,
)
    requires
        c.inv(),
        c.members.contains(n),
        c.reaches(e, n),
        e.msg is AppendEntries,
    ensures
        ({
            let before = c.nodes[n];
            let (s, out) = before.receive(e.src, e.msg, now, timeout);
            let end = after(e.msg->prev_log_index) + e.msg->entries.len();
            ||| passive(c, n, s, out) && commit_kept(before, s) && s.role != Role::Leader
            ||| passive(c, n, s, out) && commit_kept(before, s) && s.match_index
                == before.match_index
            ||| {
                &&& takes_over(c, n, s, out, end)
                &&& s.current_term == e.msg->AppendEntries_term
                &&& verified_index(e.msg->prev_log_index, e.msg->entries.len() as int) is Some
                &&& forall|j: int|
                    s.log.len() <= j < before.log.len() ==> (#[trigger] before.log[j]).term
                        != s.current_term
                &&& commit_kept(before, s) || learned(before, s, e.msg->leader_commit)
            }
        }),
{
    let before = c.nodes[n];
    assert(c.node_ok(n));
    assert(c.msg_ok(e));
    lemma_two_members(c, n, e.src);
    let (s, out) = before.receive(e.src, e.msg, now, timeout);
    match e.msg {
        RaftMsg::AppendEntries {
            term,
            leader,
            prev_log_index,
            prev_log_term,
            entries,
            leader_commit,
        } => {
            let s1 = before.caught_up(e.msg, now, timeout);
            assert(c.leader_ok(term));
            if term < s1.current_term || (term == s1.current_term && s1.role == Role::Leader) {
                assert(s1 == before);
                assert(passive(c, n, s, out));
            } else {
                let s2 = s1.following(leader, now, timeout);
                assert(s2.log == before.log);
                if !holds_prev(s2.log, prev_log_index, prev_log_term) {
                    assert(passive(c, n, s, out));
                } else {
                    lemma_accepted_append(
                        c,
                        n,
                        s2,
                        leader,
                        prev_log_index,
                        prev_log_term,
                        entries,
                        leader_commit,
                    );
                }
            }
        },
        _ => {},
    }
}

/// A reply without a verified index and forwarded proposals acknowledge nothing.
pub proof fn lemma_no_acks<T>(out: Seq<Packet<RaftMsg<T>>>)
    requires
        forall|i: int|
            0 <= i < out.len() ==> (#[trigger] out[i]).message is Forward || (
            out[i].message is AppendEntriesResponse
                && out[i].message->AppendEntriesResponse_match_index is None),
    ensures
        forall|t: u64, m: u64| !#[trigger] acknowledges(out, t, m),
{
    assert forall|t: u64, m: u64| !#[trigger] acknowledges(out, t, m) by {
        if acknowledges(out, t, m) {
            let i = choose|i: int|
                #![trigger out[i]]
                0 <= i < out.len() && is_ack(out[i].message, t, m);
            assert(out[i].message is Forward || out[i].message is AppendEntriesResponse);
        }
    }
}

/// A log that holds an entry of the leader's own behind an append of the leader
/// is the leader's log, and holds the entries of the append.
pub proof fn lemma_overtaken<T>(
    c: Cluster<T>,
    t: u64,
    log: Seq<Entry<T>>,
    prev: Option<u64>,
    entries: Seq<Entry<T>>,
)
    requires
        c.inv(),
        c.leaders.contains_key(t),
        c.log_ok(log),
        forall|i: int| 0 <= i < log.len() ==> (#[trigger] log[i]).term <= t,
        after(prev) + entries.len() <= c.led[t].len(),
        entries == c.led[t].subrange(after(prev), after(prev) + entries.len()),
        has_term_from(log, after(prev) + entries.len(), t),
    ensures
        log.len() <= c.led[t].len(),
        log == c.led[t].take(log.len() as int),
        held(log, after(prev), entries, 0) == entries.len(),
{
    let start = after(prev);
    let end = start + entries.len();
    let j = choose|j: int| end <= j < log.len() && (#[trigger] log[j]).term == t;
    let last = log.len() - 1;
    let u = log[last].term;
    assert(c.entry_ok(log, last));
    assert(c.leader_ok(u));
    lemma_led_ok(c, u);
    assert(log.take(last + 1) =~= log);
    assert(log[j] == c.led[u].take(last + 1)[j]);
    assert(c.led[u][j].term == t);
    assert(u == t) by {
        if j < c.base(u).len() {
            assert(c.stood_ok(c.leaders[u], u));
            assert(c.led[u].take(c.base(u).len() as int)[j] == c.base(u)[j]);
        }
    }
    lemma_held_bounds(log, start, entries, 0);
    let k = held(log, start, entries, 0);
    if k < entries.len() {
        assert(log[start + k] == c.led[t][start + k]);
        assert(entries[k] == c.led[t][start + k]);
        assert(held_at(log, start, entries, k));
    }
}

/// An append of the leader makes a log the leader's, up to where the append ends
/// at least, and cuts off no entry of the leader's own.
pub proof fn lemma_taken_log<T>(
    c: Cluster<T>,
    t: u64,
    s: RaftState<T>,
    prev: Option<u64>,
    prev_term: u64,
    entries: Seq<Entry<T>>,
)
    requires
        c.inv(),
        c.leaders.contains_key(t),
        s.current_term == t,
        c.log_ok(s.log),
        forall|i: int| 0 <= i < s.log.len() ==> (#[trigger] s.log[i]).term <= t,
        carries(c.led[t], c.base(t).len() as int, prev, prev_term, entries),
        holds_prev(s.log, prev, prev_term),
        verified_index(prev, entries.len() as int) is Some,
    ensures
        ({
            let log = s.placing(s.current_term, prev, entries).log;
            &&& after(prev) + entries.len() <= log.len() <= c.led[t].len()
            &&& log == c.led[t].take(log.len() as int)
            &&& forall|j: int| log.len() <= j < s.log.len() ==> (#[trigger] s.log[j]).term != t
        }),
{
    let end = after(prev) + entries.len();
    assert(c.leader_ok(t));
    if has_term_from(s.log, end, t) {
        lemma_overtaken(c, t, s.log, prev, entries);
    } else {
        lemma_placed(c, t, s.log, prev, prev_term, entries);
        lemma_placing_log(s, prev, entries);
        assert forall|j: int| end <= j < s.log.len() implies (#[trigger] s.log[j]).term != t by {}
    }
}

/// The log after entries were placed that no later append has overtaken.
pub proof fn lemma_placing_log<T>(s: RaftState<T>, prev: Option<u64>, entries: Seq<Entry<T>>)
    requires
        prev matches Some(p) ==> p < s.log.len(),
        verified_index(prev, entries.len() as int) is Some,
        after(prev) + entries.len() <= u64::MAX,
        !has_term_from(s.log, after(prev) + entries.len(), s.current_term),
    ensures
        s.placing(s.current_term, prev, entries).log == placed(s.log, after(prev), entries),
{
    let start = after(prev);
    lemma_held_bounds(s.log, start, entries, 0);
    let k = held(s.log, start, entries, 0);
    if k == entries.len() {
        let end = start + entries.len();
        assert(entries.skip(k) =~= Seq::empty());
        assert(placed(s.log, start, entries) =~= s.log.take(end));
        if k > 0 {
            assert(held_at(s.log, start, entries, k - 1));
        }
        if s.log.len() <= end {
            assert(s.log.take(end) =~= s.log);
        }
    }
}

/// What a leader makes of an answer to an append.
pub proof fn lemma_on_append_response<T>(
    c: Cluster<T>,
    n: NodeName,
    e: Envelope<T>,
    now: u64,
    timeout: u64,
)
    requires
        c.inv(),
        c.members.contains(n),
        c.reaches(e, n),
        e.msg is AppendEntriesResponse,
    ensures
        ({
            let before = c.nodes[n];
            let (s, out) = before.receive(e.src, e.msg, now, timeout);
            &&& passive(c, n, s, out)
            &&& s.role != Role::Leader ==> commit_kept(before, s)
            &&& commit_kept(before, s) || counted(before, s)
            &&& s.role == Role::Leader ==> s.match_index == before.match_index || exists|m: u64|
                #![trigger before.match_index.insert(e.src, Some(m))]
                s.match_index == before.match_index.insert(e.src, Some(m)) && c.acks.contains(
                    (e.src, s.current_term, m),
                )
        }),
{
    let before = c.nodes[n];
    assert(c.node_ok(n));
    assert(c.msg_ok(e));
    lemma_two_members(c, n, e.src);
    let (s, out) = before.receive(e.src, e.msg, now, timeout);
    match e.msg {
        RaftMsg::AppendEntriesResponse {
            term,
            success,
            match_index,
            conflict_term,
            conflict_index,
        } => {
            let s1 = before.caught_up(e.msg, now, timeout);
            if s1.role != Role::Leader || term != s1.current_term {
                assert(passive(c, n, s, out));
            } else {
                assert(s1 == before);
                assert(c.leader_ok(term));
                if success {
                    if match_index is Some && match_index->0 < before.log.len() {
                        let m = match_index->0;
                        let s2 = RaftState {
                            match_index: before.match_index.insert(e.src, Some(m)),
                            next_index: before.next_index.insert(e.src, (m + 1) as u64),
                            ..before
                        };
                        lemma_advance(s2);
                        assert(s == s2.advance_commit());
                        assert(s.match_index == before.match_index.insert(e.src, Some(m)));
                        assert(c.acks.contains((e.src, term, m)));
                    }
                    assert(passive(c, n, s, out));
                } else {
                    let next = before.backed_up(e.src, conflict_term, conflict_index);
                    lemma_backed_up(before, e.src, conflict_term, conflict_index);
                    lemma_append_from(c, n, before, next);
                    assert(before.append_from(next) == before.append_from(next));
                    lemma_one_quiet(out);
                    assert(passive(c, n, s, out));
                }
            }
        },
        _ => {},
    }
}

/// One message that is no acknowledgement.
pub proof fn lemma_one_quiet<T>(out: Seq<Packet<RaftMsg<T>>>)
    requires
        out.len() == 1,
        forall|t: u64, m: u64| !#[trigger] is_ack(out[0].message, t, m),
    ensures
        forall|t: u64, m: u64| !#[trigger] acknowledges(out, t, m),
{
    assert forall|t: u64, m: u64| !#[trigger] acknowledges(out, t, m) by {
        if acknowledges(out, t, m) {
            let i = choose|i: int|
                #![trigger out[i]]
                0 <= i < out.len() && is_ack(out[i].message, t, m);
            assert(i == 0);
            assert(!is_ack(out[0].message, t, m));
        }
    }
}

/// The next append to a follower starts within the log.
pub proof fn lemma_backed_up<T>(
    s: RaftState<T>,
    from: NodeName,
    conflict_term: Option<u64>,
    conflict_index: Option<u64>,
)
    ensures
        0 <= s.backed_up(from, conflict_term, conflict_index) <= s.log.len(),
{
    if let (Some(ci), Some(ct)) = (conflict_index, conflict_term) {
        if has_term(s.log, ct) {
            lemma_last_of_term(s.log, ct, s.log.len() as int);
        }
    }
}

pub proof fn lemma_last_of_term<T>(log: Seq<Entry<T>>, term: u64, k: int)
    requires
        has_term(log, term),
        0 <= k <= log.len(),
        forall|j: int| k <= j < log.len() ==> log[j].term != term,
    ensures
        exists|i: int| is_last_of_term(log, term, i),
    decreases k,
{
    if k > 0 {
        if log[k - 1].term == term {
            assert(is_last_of_term(log, term, k - 1));
        } else {
            lemma_last_of_term(log, term, k - 1);
        }
    }
}

/// A proposal extends the log of a leader; at another node nothing that matters
/// happens.
pub proof fn lemma_on_propose<T>(c: Cluster<T>, n: NodeName, value: T, now: u64)
    requires
        c.inv(),
        c.members.contains(n),
        c.nodes[n].propose(value, now).0.log.len() <= u64::MAX,
    ensures
        ({
            let before = c.nodes[n];
            let (s, out) = before.propose(value, now);
            ||| passive(c, n, s, out) && commit_kept(before, s) && s.match_index
                == before.match_index
            ||| extends(c, n, s, out) && extended_by(before, s)
        }),
{
    let before = c.nodes[n];
    assert(c.node_ok(n));
    let (s, out) = before.propose(value, now);
    if before.role == Role::Leader {
        let s2 = before.extended(seq![value]);
        lemma_advance(s2);
        assert(s2.log.take(before.log.len() as int) =~= before.log);
        assert(out =~= seq![
            Packet {
                target: Target::Broadcast,
                message: s.append_from(before.log.len() as int),
            },
        ]);
        assert(extends(c, n, s, out));
    } else {
        if before.leader is Some {
            lemma_one_quiet(out);
        }
        assert(passive(c, n, s, out));
    }
}

/// What an extending leader has of the state before.
pub open spec fn extended_by<T>(before: RaftState<T>, s: RaftState<T>) -> bool {
    &&& s.log.len() > 0
    &&& s.match_index == before.match_index.insert(
        s.node_id,
        Some((s.log.len() - 1) as u64),
    )
    &&& commit_kept(before, s) || counted(before, s)
}

/// A forwarded proposal is handed on, buffered, or proposed by the leader.
pub proof fn lemma_on_forward<T>(
    c: Cluster<T>,
    n: NodeName,
    e: Envelope<T>,
    now: u64,
    timeout: u64,
)
    requires
        c.inv(),
        c.members.contains(n),
        e.msg is Forward,
        c.nodes[n].receive(e.src, e.msg, now, timeout).0.log.len() <= u64::MAX,
    ensures
        ({
            let before = c.nodes[n];
            let (s, out) = before.receive(e.src, e.msg, now, timeout);
            ||| passive(c, n, s, out) && commit_kept(before, s) && s.match_index
                == before.match_index
            ||| extends(c, n, s, out) && extended_by(before, s)
        }),
{
    let before = c.nodes[n];
    assert(c.node_ok(n));
    match e.msg {
        RaftMsg::Forward { value, hops } => {
            if before.role == Role::Leader {
                lemma_on_propose(c, n, value, now);
            } else {
                let (s, out) = before.receive(e.src, e.msg, now, timeout);
                if out.len() == 1 {
                    lemma_one_quiet(out);
                }
                assert(passive(c, n, s, out));
            }
        },
        _ => {},
    }
}

/// A node whose time has come sends a heartbeat, starts an election, or does
/// nothing.
pub proof fn lemma_on_lapse<T>(c: Cluster<T>, n: NodeName, now: u64, timeout: u64)
    requires
        c.inv(),
        c.members.contains(n),
        c.nodes[n].election_due(now) ==> c.nodes[n].current_term < u64::MAX,
        c.nodes[n].lapse(now, timeout).0.log.len() <= u64::MAX,
    ensures
        ({
            let before = c.nodes[n];
            let (s, out) = before.lapse(now, timeout);
            ||| passive(c, n, s, out) && commit_kept(before, s) && s.match_index
                == before.match_index
            ||| stands(c, n, s, out) && commit_kept(before, s)
            ||| exists|q: Set<NodeName>| #[trigger] wins(c, n, s, out, q) && led_from(before, s)
        }),
{
    let before = c.nodes[n];
    assert(c.node_ok(n));
    let (s, out) = before.lapse(now, timeout);
    if before.heartbeat_due(now) {
        let t = before.current_term;
        assert(c.leader_ok(t));
        lemma_append_from(c, n, before, before.log.len() as int);
        assert(out[0].message == before.append_from(before.log.len() as int));
        lemma_one_quiet(out);
        assert(passive(c, n, s, out));
    } else if before.election_due(now) {
        let s1 = before.candidacy(now, timeout);
        if 1 >= before.quorum() {
            lemma_lead(s1, now);
            let q = set![n];
            assert(is_quorum(c.members, q));
            assert(c.members.len() == 1);
            assert(wins(c, n, s, out, q));
        } else {
            assert(c.members.len() > 1);
            assert(out =~= seq![
                Packet {
                    target: Target::Broadcast,
                    message: RaftMsg::<T>::RequestVote {
                        term: s.current_term,
                        candidate: n,
                        last_log_index: last_index(s.log),
                        last_log_term: last_term(s.log),
                    },
                },
            ]);
            assert(stands(c, n, s, out));
        }
    } else {
        assert(passive(c, n, s, out));
    }
}

/// Queueing what was not yet applied changes nothing else.
pub proof fn lemma_on_reapply<T>(c: Cluster<T>, n: NodeName)
    requires
        c.inv(),
        c.members.contains(n),
    ensures
        passive(c, n, c.nodes[n].reapplied(), Seq::empty()),
{
    assert(c.node_ok(n));
    assert forall|t: u64, m: u64| !#[trigger] acknowledges(Seq::<Packet<RaftMsg<T>>>::empty(), t, m) by {}
}

/// A tick is two steps: what is due is done, then what was not yet applied is
/// queued.
pub proof fn lemma_tick_in_two<T>(c: Cluster<T>, n: NodeName, now: u64, timeout: u64)
    requires
        c.members.contains(n),
        c.nodes.dom() == c.members,
    ensures
        ({
            let (s, out) = c.nodes[n].lapse(now, timeout);
            let d = c.performed(n, s, out);
            let (t, sent_by_tick) = c.nodes[n].tick(now, timeout);
            &&& c.performed(n, t, sent_by_tick) == d.performed(
                n,
                d.nodes[n].reapplied(),
                Seq::empty(),
            )
            &&& d.nodes[n] == s.persisted()
        }),
{
    let (s, out) = c.nodes[n].lapse(now, timeout);
    let d = c.performed(n, s, out);
    let t = s.reapplied();
    let e = d.performed(n, d.nodes[n].reapplied(), Seq::empty());
    let f = c.performed(n, t, out);
    assert(d.nodes[n].reapplied() =~= t.persisted());
    assert(t.persisted().persisted() =~= t.persisted());
    assert(e.nodes =~= f.nodes);
    assert(sent(n, Seq::<Packet<RaftMsg<T>>>::empty()) =~= Set::empty());
    assert(e.net =~= f.net);
    assert(e.votes =~= f.votes);
    assert(e.stood =~= f.stood);
    assert(e.leaders =~= f.leaders);
    assert(e.led =~= f.led);
    assert forall|a: u64, m: u64| !#[trigger] acknowledges(Seq::<Packet<RaftMsg<T>>>::empty(), a, m) by {}
    assert(e.acks =~= f.acks);
    assert forall|x: (u64, T)| s.pending_decisions.contains(x) implies #[trigger]
        t.pending_decisions.contains(x) by {
        let k = choose|k: int| 0 <= k < s.pending_decisions.len() && s.pending_decisions[k] == x;
        assert(t.pending_decisions[k] == x);
    }
    assert(e.decided =~= f.decided);
}

/// A restart changes nothing that matters.
pub proof fn lemma_on_restart<T>(
    c: Cluster<T>,
    n: NodeName,
    saved: Set<u64>,
    commit: Option<u64>,
    now: u64,
    timeout: u64,
)
    requires
        c.inv(),
        c.members.contains(n),
    ensures
        ({
            let b = c.nodes[n];
            let s = b.restored(
                b.current_term,
                b.voted_for,
                b.log,
                saved,
                commit,
                now,
                timeout,
            );
            passive(c, n, s, Seq::empty())
        }),
{
    assert(c.node_ok(n));
    assert forall|t: u64, m: u64| !#[trigger] acknowledges(Seq::<Packet<RaftMsg<T>>>::empty(), t, m) by {}
}

/// Whether a log is what is left of a node's where that gives way to the log
/// `new` of the leader of a term, and the leader's entries are not written yet.
pub open spec fn gives_way<T>(
    c: Cluster<T>,
    n: NodeName,
    term: u64,
    log: Seq<Entry<T>>,
    new: Seq<Entry<T>>,
) -> bool {
    let before = c.nodes[n].log;
    &&& c.leaders.contains_key(term)
    &&& c.base(term).len() <= new.len() <= c.led[term].len()
    &&& new == c.led[term].take(new.len() as int)
    &&& forall|j: int| new.len() <= j < before.len() ==> (#[trigger] before[j]).term != term
    &&& log.len() < before.len()
    &&& log.len() <= new.len()
    &&& log == new.take(log.len() as int)
    &&& log.len() == new.len() || new[log.len() as int].term != before[log.len() as int].term
}

/// Whether a storage can hold this term, vote and log of a node whose last flush
/// was cut short.
pub open spec fn spills<T>(
    c: Cluster<T>,
    n: NodeName,
    term: u64,
    vote: Option<NodeName>,
    log: Seq<Entry<T>>,
) -> bool {
    let before = c.nodes[n];
    &&& c.members.contains(n)
    &&& c.members.len() > 1
    &&& term >= before.current_term
    &&& term == before.current_term && before.voted_for is Some ==> vote == before.voted_for
    &&& term == before.current_term && vote == Some(n) ==> before.voted_for == Some(n)
    &&& log.len() <= before.log.len()
    &&& log == before.log.take(log.len() as int)
    &&& log == before.log || exists|new: Seq<Entry<T>>| #[trigger] gives_way(c, n, term, log, new)
}

/// A node never finds a vote for itself that it did not give in the term.
proof fn lemma_cut_vote<T>(c: Cluster<T>, n: NodeName, event: Event<T>)
    requires
        c.inv(),
        c.members.contains(n),
        c.nodes[n].allows(event),
        event matches Event::Receive { from, message, .. } ==> exists|dst: Target| #[trigger]
            c.reaches(Envelope { src: from, dst, msg: message }, n),
        c.nodes[n].after_event(event).current_term == c.nodes[n].current_term,
        c.nodes[n].after_event(event).voted_for == Some(n),
    ensures
        c.nodes[n].voted_for == Some(n),
{
    if c.nodes[n].voted_for != Some(n) {
        lemma_vote_given(c.nodes[n], event);
        match event {
            Event::Receive { from, message, .. } => {
                let dst = choose|dst: Target| #[trigger]
                    c.reaches(Envelope { src: from, dst, msg: message }, n);
                assert(c.msg_ok(Envelope { src: from, dst, msg: message }));
            },
            _ => {},
        }
    }
}

/// What is cut off a log gives way to the log of a leader.
proof fn lemma_cut_log<T>(c: Cluster<T>, n: NodeName, event: Event<T>, at: u64)
    requires
        c.inv(),
        c.members.contains(n),
        event matches Event::Receive { from, message, .. } ==> exists|dst: Target| #[trigger]
            c.reaches(Envelope { src: from, dst, msg: message }, n),
        c.nodes[n].after_event(event).pending_truncate_from == Some(at),
    ensures
        at < c.nodes[n].log.len(),
        ({
            let t = c.nodes[n].after_event(event);
            gives_way(c, n, t.current_term, c.nodes[n].log.take(at as int), t.log)
        }),
{
    let before = c.nodes[n];
    let t = before.after_event(event);
    assert(c.node_ok(n));
    lemma_truncation(before, event, at);
    match event {
        Event::Receive { from, message, now, timeout } => {
            let dst = choose|dst: Target| #[trigger]
                c.reaches(Envelope { src: from, dst, msg: message }, n);
            let e = Envelope { src: from, dst, msg: message };
            assert(c.msg_ok(e));
            lemma_on_append(c, n, e, now, timeout);
            assert(t.log.len() == at ==> t.log.len() != before.log.len());
            assert(t.log != before.log);
            assert(before.log.take(at as int) =~= t.log.take(at as int));
        },
        _ => {},
    }
}

/// A node alone that restarts from a flush that was cut short is as it was, or in
/// a new term, which it leads if the vote for itself was written.
pub proof fn lemma_on_lone_cut<T>(c: Cluster<T>, action: Action<T>)
    requires
        c.inv(),
        c.enabled(action),
        action is Cut,
        c.members.len() == 1,
    ensures
        ({
            let n = node_of(action);
            let before = c.nodes[n];
            let (s, out) = c.outcome(action);
            &&& s == before.restored(
                s.current_term,
                s.voted_for,
                before.log,
                action->Cut_saved,
                before.commit_index,
                action->Cut_now,
                action->Cut_timeout,
            )
            &&& out == Seq::<Packet<RaftMsg<T>>>::empty()
            &&& c.passive_or_wins(n, s)
        }),
{
    let n = node_of(action);
    let before = c.nodes[n];
    let event = action->during;
    let count = action->count;
    let t = before.after_event(event);
    let (s, out) = c.outcome(action);
    let p = written(kept_by(before), t.persist_intent().first(count));
    assert(c.node_ok(n));
    if let Event::Receive { from, message, .. } = event {
        let dst = choose|dst: Target| #[trigger]
            c.reaches(Envelope { src: from, dst, msg: message }, n);
        assert(c.msg_ok(Envelope { src: from, dst, msg: message }));
        lemma_two_members(c, n, from);
    }
    if t.pending_truncate_from is Some {
        lemma_truncation(before, event, t.pending_truncate_from->0);
    }
    assert(p.log == before.log);
    if p.term != before.current_term || p.voted_for != before.voted_for {
        match event {
            Event::Tick { now, timeout } => {
                lemma_lone_tick(before, now, timeout);
            },
            Event::Propose { value, now } => {
                lemma_lone_propose(before, value, now);
            },
            _ => {},
        }
    }
    assert forall|u: u64, m: u64| !#[trigger] acknowledges(out, u, m) by {}
    if s.current_term > before.current_term && s.voted_for == Some(n) {
        let q = set![n];
        lemma_only_member(c, n);
        assert(q.subset_of(c.members));
        assert(is_quorum(c.members, q));
        assert(s.log.take(before.log.len() as int) =~= before.log);
        assert(wins(c, n, s, Seq::empty(), q));
    }
}

/// A tick changes term and vote by an election only.
proof fn lemma_lone_tick<T>(s: RaftState<T>, now: u64, timeout: u64)
    requires
        s.clean(),
        s.election_due(now) ==> s.current_term < u64::MAX,
        s.tick(now, timeout).0.log.len() <= u64::MAX,
    ensures
        ({
            let t = s.tick(now, timeout).0;
            ||| !t.pending_persist_term && !t.pending_persist_voted_for
            ||| s.role != Role::Leader && t.current_term == s.current_term + 1 && t.voted_for
                == Some(s.node_id) && t.pending_persist_term && t.pending_persist_voted_for
        }),
{
    if s.election_due(now) && 1 >= s.quorum() {
        assert(s.tick(now, timeout).0.log == s.lapse(now, timeout).0.log);
        lemma_lead(s.candidacy(now, timeout), now);
    }
}

/// A proposal changes neither term nor vote.
proof fn lemma_lone_propose<T>(s: RaftState<T>, value: T, now: u64)
    requires
        s.clean(),
    ensures
        !s.propose(value, now).0.pending_persist_term,
        !s.propose(value, now).0.pending_persist_voted_for,
{
    lemma_advance(s.extended(seq![value]));
}

impl<T> Cluster<T> {
    /// Whether `n` goes over to a state in which nothing that matters has
    /// happened, or in which it leads without a word.
    pub open spec fn passive_or_wins(self, n: NodeName, s: RaftState<T>) -> bool {
        ||| passive(self, n, s, Seq::empty())
        ||| exists|q: Set<NodeName>| #[trigger] wins(self, n, s, Seq::empty(), q)
    }
}

/// What a flush that was cut short leaves in the storage of a node.
pub proof fn lemma_on_cut<T>(c: Cluster<T>, action: Action<T>)
    requires
        c.inv(),
        c.enabled(action),
        action is Cut,
        c.members.len() > 1,
    ensures
        ({
            let n = node_of(action);
            let before = c.nodes[n];
            let (s, out) = c.outcome(action);
            &&& spills(c, n, s.current_term, s.voted_for, s.log)
            &&& s == before.restored(
                s.current_term,
                s.voted_for,
                s.log,
                action->Cut_saved,
                before.commit_index,
                action->Cut_now,
                action->Cut_timeout,
            )
            &&& out == Seq::<Packet<RaftMsg<T>>>::empty()
        }),
{
    let n = node_of(action);
    let before = c.nodes[n];
    let event = action->during;
    let count = action->count;
    let t = before.after_event(event);
    let p = written(kept_by(before), t.persist_intent().first(count));
    assert(c.node_ok(n));
    a_cut_flush_takes_nothing_back(before, kept_by(before), event, count);
    flushing_keeps_the_mirror(before, kept_by(before), event);
    assert(before.log.take(before.log.len() as int) =~= before.log);
    if p.term == before.current_term && p.voted_for == Some(n) && before.voted_for != Some(n) {
        lemma_cut_vote(c, n, event);
    }
    if p.log != before.log {
        let at = t.pending_truncate_from->0;
        lemma_cut_log(c, n, event, at);
        assert(p.log =~= before.log.take(at as int));
        assert(gives_way(c, n, p.term, p.log, t.log));
    }
}

/// A restart from a flush that was cut short is as it should be.
pub proof fn lemma_spilled<T>(c: Cluster<T>, n: NodeName, s: RaftState<T>)
    requires
        c.inv(),
        spills(c, n, s.current_term, s.voted_for, s.log),
        s.node_id == n,
        s.total_nodes == c.nodes[n].total_nodes,
        s.role == Role::Follower,
    ensures
        follows_on(c, n, s),
        c.performed(n, s, Seq::empty()).inv(),
{
    let before = c.nodes[n];
    let out = Seq::<Packet<RaftMsg<T>>>::empty();
    let d = c.performed(n, s, out);
    assert(c.node_ok(n));
    lemma_performed_grows(c, n, s, out);
    lemma_frame(c, d, n);
    lemma_log_ok_grown(c, d, before.log);
    if s.voted_for == Some(n) && s.current_term > before.current_term {
        lemma_new_candidacy(c, n, s, out);
    }
    assert(d.log_ok(s.log)) by {
        assert forall|i: int| 0 <= i < s.log.len() implies #[trigger] d.entry_ok(s.log, i) by {
            assert(d.entry_ok(before.log, i));
            assert(s.log.take(i + 1) =~= before.log.take(i + 1));
        }
    }
    assert(d.node_ok(n)) by {
        assert forall|t: u64| #[trigger] d.votes.contains_key((n, t)) implies 1 <= t
            <= s.current_term by {
            if c.votes.contains_key((n, t)) {
            }
        }
    }
    assert forall|t: u64, m: u64| !#[trigger] acknowledges(out, t, m) by {}
    lemma_performed_inv(c, n, s, out);
}

/// Every action preserves the invariant, whatever the network does.
pub proof fn lemma_action_inv<T>(c: Cluster<T>, action: Action<T>)
    requires
        c.inv(),
        c.enabled(action),
    ensures
        c.after_action(action).inv(),
        follows_on(c, node_of(action), c.outcome(action).0),
{
    let n = node_of(action);
    let (s, out) = c.outcome(action);
    match action {
        Action::Deliver { node, envelope, now, timeout } => {
            match envelope.msg {
                RaftMsg::RequestVote { .. } => {
                    lemma_on_request_vote(c, n, envelope, now, timeout);
                    if !passive(c, n, s, out) {
                        lemma_vote(c, n, s, out, envelope.src);
                    }
                },
                RaftMsg::RequestVoteResponse { .. } => {
                    lemma_on_vote_response(c, n, envelope, now, timeout);
                    if !passive(c, n, s, out) {
                        let q = choose|q: Set<NodeName>| #[trigger] wins(c, n, s, out, q);
                        lemma_win(c, n, s, out, q);
                    }
                },
                RaftMsg::AppendEntries { prev_log_index, entries, .. } => {
                    lemma_on_append(c, n, envelope, now, timeout);
                    if !passive(c, n, s, out) {
                        lemma_take_over(c, n, s, out, after(prev_log_index) + entries.len());
                    }
                },
                RaftMsg::AppendEntriesResponse { .. } => {
                    lemma_on_append_response(c, n, envelope, now, timeout);
                },
                RaftMsg::Forward { .. } => {
                    lemma_on_forward(c, n, envelope, now, timeout);
                    if !passive(c, n, s, out) {
                        lemma_extend(c, n, s, out);
                    }
                },
            }
        },
        Action::Tick { node, now, timeout } => {
            let (s1, out1) = c.nodes[n].lapse(now, timeout);
            let d = c.performed(n, s1, out1);
            lemma_on_lapse(c, n, now, timeout);
            if passive(c, n, s1, out1) {
                lemma_passive(c, n, s1, out1);
            } else if stands(c, n, s1, out1) {
                lemma_stand(c, n, s1, out1);
            } else {
                let q = choose|q: Set<NodeName>| #[trigger] wins(c, n, s1, out1, q);
                lemma_win(c, n, s1, out1, q);
            }
            lemma_on_reapply(d, n);
            lemma_passive(d, n, d.nodes[n].reapplied(), Seq::empty());
            lemma_tick_in_two(c, n, now, timeout);
        },
        Action::Propose { node, value, now } => {
            lemma_on_propose(c, n, value, now);
            if !passive(c, n, s, out) {
                lemma_extend(c, n, s, out);
            }
        },
        Action::Collect { node } => {
            assert(c.node_ok(n));
            assert forall|t: u64, m: u64| !#[trigger] acknowledges(out, t, m) by {}
            assert(passive(c, n, s, out));
        },
        Action::Restart { node, saved, commit, now, timeout } => {
            lemma_on_restart(c, n, saved, commit, now, timeout);
        },
        Action::Cut { .. } => {
            if c.members.len() > 1 {
                lemma_on_cut(c, action);
                lemma_spilled(c, n, s);
            } else {
                lemma_on_lone_cut(c, action);
                if !passive(c, n, s, out) {
                    let q = choose|q: Set<NodeName>| #[trigger] wins(c, n, s, out, q);
                    lemma_win(c, n, s, out, q);
                }
            }
        },
    }
    if passive(c, n, s, out) {
        lemma_passive(c, n, s, out);
    }
}

/// A run of a cluster: it starts with fresh nodes, and every state follows from
/// the one before by an action.
pub open spec fn run<T>(states: Seq<Cluster<T>>, actions: Seq<Action<T>>) -> bool {
    &&& states.len() == actions.len() + 1
    &&& states[0].init()
    &&& forall|i: int|
        0 <= i < actions.len() ==> states[i].enabled(#[trigger] actions[i]) && states[i + 1]
            == states[i].after_action(actions[i])
}

/// The invariant holds of fresh nodes.
pub proof fn lemma_init_inv<T>(c: Cluster<T>)
    requires
        c.init(),
    ensures
        c.inv(),
{
    assert forall|n: NodeName| #[trigger] c.members.contains(n) implies c.node_ok(n) by {
        let (config, deadline) = choose|config: RaftConfig, deadline: u64|
            c.nodes[n] == #[trigger] RaftState::<T>::initial(
                n,
                c.members.len() as usize,
                config,
                deadline,
            );
    }
}

/// The invariant holds in every state of a run, and what was once so stays so.
pub proof fn lemma_run<T>(states: Seq<Cluster<T>>, actions: Seq<Action<T>>, i: int, j: int)
    requires
        run(states, actions),
        0 <= i <= j < states.len(),
    ensures
        states[i].inv(),
        states[j].inv(),
        states[i].grows_to(states[j]),
    decreases j,
{
    if j == 0 {
        lemma_init_inv(states[0]);
        lemma_grows_same(states[0]);
    } else if i == j {
        lemma_run(states, actions, i - 1, j - 1);
        let a = actions[j - 1];
        lemma_action_inv(states[j - 1], a);
        lemma_grows_same(states[j]);
    } else {
        lemma_run(states, actions, i, j - 1);
        let a = actions[j - 1];
        lemma_action_inv(states[j - 1], a);
        let (s, out) = states[j - 1].outcome(a);
        lemma_performed_grows(states[j - 1], node_of(a), s, out);
        lemma_grows_chain(states[i], states[j - 1], states[j]);
    }
}

proof fn lemma_grows_same<T>(c: Cluster<T>)
    ensures
        c.grows_to(c),
{
    assert forall|t: u64| #[trigger] c.leaders.contains_key(t) implies c.led[t].take(
        c.led[t].len() as int,
    ) == c.led[t] by {
        assert(c.led[t].take(c.led[t].len() as int) =~= c.led[t]);
    }
}

proof fn lemma_grows_chain<T>(a: Cluster<T>, b: Cluster<T>, c: Cluster<T>)
    requires
        a.grows_to(b),
        b.grows_to(c),
    ensures
        a.grows_to(c),
{
    assert forall|t: u64| #[trigger] a.leaders.contains_key(t) implies c.leaders.contains_key(t)
        && c.leaders[t] == a.leaders[t] && a.led[t].len() <= c.led[t].len() && c.led[t].take(
        a.led[t].len() as int,
    ) == a.led[t] by {
        assert(b.leaders.contains_key(t));
        assert(c.led[t].take(a.led[t].len() as int) =~= c.led[t].take(b.led[t].len() as int).take(
            a.led[t].len() as int,
        ));
    }
    assert forall|n: NodeName, t: u64| #[trigger] a.votes.contains_key((n, t)) implies
        c.votes.contains_key((n, t)) && c.votes[(n, t)] == a.votes[(n, t)] by {
        assert(b.votes.contains_key((n, t)));
    }
    assert forall|n: NodeName, t: u64| #[trigger] a.stood.contains_key((n, t)) implies
        c.stood.contains_key((n, t)) && c.stood[(n, t)] == a.stood[(n, t)] by {
        assert(b.stood.contains_key((n, t)));
    }
    assert forall|n: NodeName| #[trigger] a.members.contains(n) implies a.nodes[n].current_term
        <= c.nodes[n].current_term by {
        assert(b.members.contains(n));
    }
    assert forall|x: (NodeName, u64, u64)| #[trigger] a.acks.contains(x) implies c.acks.contains(
        x,
    ) by {
        assert(b.acks.contains(x));
    }
}

/// Election safety: two nodes that lead the same term, at whatever times in a
/// run, are the same node.
pub proof fn election_safety<T>(
    states: Seq<Cluster<T>>,
    actions: Seq<Action<T>>,
    i: int,
    j: int,
    n: NodeName,
    m: NodeName,
)
    requires
        run(states, actions),
        0 <= i < states.len(),
        0 <= j < states.len(),
        states[i].members.contains(n),
        states[j].members.contains(m),
        states[i].nodes[n].role == Role::Leader,
        states[j].nodes[m].role == Role::Leader,
        states[i].nodes[n].current_term == states[j].nodes[m].current_term,
    ensures
        n == m,
{
    let t = states[i].nodes[n].current_term;
    lemma_run(states, actions, i, i);
    lemma_run(states, actions, j, j);
    assert(states[i].node_ok(n));
    assert(states[j].node_ok(m));
    if i <= j {
        lemma_run(states, actions, i, j);
        assert(states[i].leaders.contains_key(t));
    } else {
        lemma_run(states, actions, j, i);
        assert(states[j].leaders.contains_key(t));
    }
}

/// Log matching: where the logs of two nodes hold an entry of the same term at
/// the same index, they are the same up to there.
pub proof fn log_matching<T>(
    states: Seq<Cluster<T>>,
    actions: Seq<Action<T>>,
    i: int,
    n: NodeName,
    m: NodeName,
    k: int,
)
    requires
        run(states, actions),
        0 <= i < states.len(),
        states[i].members.contains(n),
        states[i].members.contains(m),
        0 <= k < states[i].nodes[n].log.len(),
        k < states[i].nodes[m].log.len(),
        states[i].nodes[n].log[k].term == states[i].nodes[m].log[k].term,
    ensures
        states[i].nodes[n].log.take(k + 1) == states[i].nodes[m].log.take(k + 1),
{
    lemma_run(states, actions, i, i);
    let c = states[i];
    assert(c.node_ok(n));
    assert(c.node_ok(m));
    assert(c.entry_ok(c.nodes[n].log, k));
    assert(c.entry_ok(c.nodes[m].log, k));
}

/// Terms never go back, not even over restarts.
pub proof fn terms_never_go_back<T>(
    states: Seq<Cluster<T>>,
    actions: Seq<Action<T>>,
    i: int,
    j: int,
    n: NodeName,
)
    requires
        run(states, actions),
        0 <= i <= j < states.len(),
        states[i].members.contains(n),
    ensures
        states[i].nodes[n].current_term <= states[j].nodes[n].current_term,
{
    lemma_run(states, actions, i, j);
}

} // verus!
