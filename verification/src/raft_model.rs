//! The Raft state machine as pure functions from state and event to the next
//! state and the messages to send.
use crate::config::{NodeName, RaftConfig};
use crate::message::{Entry, Packet, RaftMsg, Target, MAX_FORWARD_HOPS};
use crate::storage::{truncated, RaftStored};
use vstd::prelude::*;

verus! {

/// Role in the Raft state machine.
#[derive(Debug, Clone, Copy, PartialEq, Eq, Structural)]
pub enum Role {
    Follower,
    Candidate,
    Leader,
}

/// The state of one Raft node.
#[verifier::ext_equal]
pub struct RaftState<T> {
    pub node_id: NodeName,
    pub total_nodes: usize,
    pub config: RaftConfig,
    pub current_term: u64,
    pub voted_for: Option<NodeName>,
    pub log: Seq<Entry<T>>,
    pub commit_index: Option<u64>,
    pub last_applied: Option<u64>,
    pub role: Role,
    pub leader: Option<NodeName>,
    pub next_index: Map<NodeName, u64>,
    pub match_index: Map<NodeName, Option<u64>>,
    pub election_deadline: u64,
    pub votes_received: Set<NodeName>,
    pub last_heartbeat_sent: Option<u64>,
    pub pending_decisions: Seq<(u64, T)>,
    pub pending_persist_term: bool,
    pub pending_persist_voted_for: bool,
    pub pending_persist_log_from: Option<u64>,
    pub pending_truncate_from: Option<u64>,
    pub pending_persist_commit_index: bool,
    pub pending_proposals: Seq<T>,
    pub lost_proposals: Seq<T>,
}

/// The next state together with the messages to send.
pub type Step<T> = (RaftState<T>, Seq<Packet<RaftMsg<T>>>);

/// The point in time `delay` after `now`; the end of time where that is passed.
pub open spec fn deadline(now: u64, delay: u64) -> u64 {
    if now + delay > u64::MAX {
        u64::MAX
    } else {
        (now + delay) as u64
    }
}

/// A majority of `total` nodes.
pub open spec fn majority(total: usize) -> nat {
    (total / 2 + 1) as nat
}

/// The index of the last entry of a log.
pub open spec fn last_index<T>(log: Seq<Entry<T>>) -> Option<u64> {
    if log.len() == 0 {
        None
    } else {
        Some((log.len() - 1) as u64)
    }
}

/// The term of the last entry of a log, 0 for an empty log.
pub open spec fn last_term<T>(log: Seq<Entry<T>>) -> u64 {
    if log.len() == 0 {
        0
    } else {
        log.last().term
    }
}

/// Whether a log that ends in `term` at `index` is at least as up-to-date as
/// `log`: a later last term wins, and of equal last terms the longer log.
pub open spec fn up_to_date<T>(log: Seq<Entry<T>>, term: u64, index: Option<u64>) -> bool {
    if term != last_term(log) {
        term > last_term(log)
    } else {
        match (index, last_index(log)) {
            (_, None) => true,
            (None, Some(_)) => false,
            (Some(theirs), Some(ours)) => theirs >= ours,
        }
    }
}

/// Whether `log` holds an entry of term `prev_term` at `prev`; nothing is asked
/// of it before its first entry.
pub open spec fn holds_prev<T>(log: Seq<Entry<T>>, prev: Option<u64>, prev_term: u64) -> bool {
    match prev {
        None => true,
        Some(i) => i < log.len() && log[i as int].term == prev_term,
    }
}

/// The position after `prev`.
pub open spec fn after(prev: Option<u64>) -> int {
    match prev {
        None => 0,
        Some(i) => i + 1,
    }
}

/// How many of the leading `entries`, from the `i`-th on, `log` already holds
/// from position `start` on. An entry is held when its term is.
pub open spec fn held<T>(log: Seq<Entry<T>>, start: int, entries: Seq<Entry<T>>, i: int) -> int
    decreases entries.len() - i,
{
    if i >= entries.len() {
        entries.len() as int
    } else if start + i < log.len() && log[start + i].term == entries[i].term {
        held(log, start, entries, i + 1)
    } else {
        i
    }
}

/// A log after `entries` were placed from position `start` on: what it already
/// held stays, the first entry it does not hold replaces everything from there,
/// and nothing is left behind the last entry placed.
pub open spec fn placed<T>(log: Seq<Entry<T>>, start: int, entries: Seq<Entry<T>>) -> Seq<
    Entry<T>,
> {
    let k = held(log, start, entries, 0);
    log.take(start + k) + entries.skip(k)
}

/// Whether a log holds an entry of `term` at position `from` or behind it.
pub open spec fn has_term_from<T>(log: Seq<Entry<T>>, from: int, term: u64) -> bool {
    exists|j: int| from <= j < log.len() && (#[trigger] log[j]).term == term
}

/// The last index that an append of `count` entries after `prev` verifies.
pub open spec fn verified_index(prev: Option<u64>, count: int) -> Option<u64> {
    match prev {
        Some(p) => Some((p + count) as u64),
        None => if count == 0 {
            None
        } else {
            Some((count - 1) as u64)
        },
    }
}

/// The first position of `log` that holds an entry of `term`.
pub open spec fn first_of_term<T>(log: Seq<Entry<T>>, term: u64) -> int {
    choose|i: int|
        0 <= i < log.len() && log[i].term == term && forall|j: int|
            0 <= j < i ==> log[j].term != term
}

/// Whether `i` is the last position of `log` that holds an entry of `term`.
pub open spec fn is_last_of_term<T>(log: Seq<Entry<T>>, term: u64, i: int) -> bool {
    0 <= i < log.len() && log[i].term == term && forall|j: int|
        i < j < log.len() ==> log[j].term != term
}

/// Whether any entry of `log` is of `term`.
pub open spec fn has_term<T>(log: Seq<Entry<T>>, term: u64) -> bool {
    exists|i: int| 0 <= i < log.len() && log[i].term == term
}

/// The nodes known to hold the leader's log up to and including `index`.
pub open spec fn replicated_on(match_index: Map<NodeName, Option<u64>>, index: u64) -> Set<
    NodeName,
> {
    match_index.dom().filter(
        |n: NodeName| match_index[n] is Some && match_index[n]->0 >= index,
    )
}

/// Whether `index` is the highest index replicated on `quorum` nodes.
pub open spec fn is_quorum_index(
    match_index: Map<NodeName, Option<u64>>,
    quorum: nat,
    index: u64,
) -> bool {
    &&& replicated_on(match_index, index).len() >= quorum
    &&& forall|higher: u64| index < higher ==> #[trigger] replicated_on(match_index, higher).len() < quorum
}

/// The highest index replicated on `quorum` nodes.
pub open spec fn quorum_index(match_index: Map<NodeName, Option<u64>>, quorum: nat) -> Option<
    u64,
> {
    if exists|i: u64| is_quorum_index(match_index, quorum, i) {
        Some(choose|i: u64| is_quorum_index(match_index, quorum, i))
    } else {
        None
    }
}

/// The entries of `log` behind `applied`, up to and including `target`, as
/// decisions of the slots they stand at.
pub open spec fn decisions_between<T>(
    log: Seq<Entry<T>>,
    applied: Option<u64>,
    target: u64,
) -> Seq<(u64, T)> {
    let start = after(applied);
    let count = if start <= target {
        target + 1 - start
    } else {
        0
    };
    Seq::new(count as nat, |i: int| ((start + i) as u64, log[start + i].value))
}

/// The smaller of an optional bound and `x`.
pub open spec fn lowered(bound: Option<u64>, x: u64) -> Option<u64> {
    match bound {
        Some(b) => if b <= x {
            Some(b)
        } else {
            Some(x)
        },
        None => Some(x),
    }
}

/// `bound` where there is one, else `x`.
pub open spec fn kept_or(bound: Option<u64>, x: u64) -> Option<u64> {
    match bound {
        Some(b) => Some(b),
        None => Some(x),
    }
}

pub open spec fn to<T>(peer: NodeName, message: RaftMsg<T>) -> Seq<Packet<RaftMsg<T>>> {
    seq![Packet { target: Target::Peer(peer), message }]
}

pub open spec fn all<T>(message: RaftMsg<T>) -> Seq<Packet<RaftMsg<T>>> {
    seq![Packet { target: Target::Broadcast, message }]
}

pub open spec fn silent<T>() -> Seq<Packet<RaftMsg<T>>> {
    Seq::<Packet<RaftMsg<T>>>::empty()
}

/// Fresh proposals handed to `leader`, in order.
pub open spec fn forwards<T>(leader: NodeName, values: Seq<T>) -> Seq<Packet<RaftMsg<T>>> {
    Seq::new(
        values.len(),
        |i: int|
            Packet {
                target: Target::Peer(leader),
                message: RaftMsg::Forward { value: values[i], hops: 0 },
            },
    )
}

impl<T> RaftState<T> {
    pub open spec fn quorum(self) -> nat {
        majority(self.total_nodes)
    }

    /// A follower of term 0 with an empty log.
    pub open spec fn initial(
        node_id: NodeName,
        total_nodes: usize,
        config: RaftConfig,
        election_deadline: u64,
    ) -> RaftState<T> {
        RaftState {
            node_id,
            total_nodes,
            config,
            current_term: 0,
            voted_for: None,
            log: Seq::empty(),
            commit_index: None,
            last_applied: None,
            role: Role::Follower,
            leader: None,
            next_index: Map::empty(),
            match_index: Map::empty(),
            election_deadline,
            votes_received: Set::empty(),
            last_heartbeat_sent: None,
            pending_decisions: Seq::empty(),
            pending_persist_term: false,
            pending_persist_voted_for: false,
            pending_persist_log_from: None,
            pending_truncate_from: None,
            pending_persist_commit_index: false,
            pending_proposals: Seq::empty(),
            lost_proposals: Seq::empty(),
        }
    }

    /// Follow `leader`, in `term` where that is later than the current one.
    pub open spec fn step_down(
        self,
        term: u64,
        leader: Option<NodeName>,
        now: u64,
        timeout: u64,
    ) -> RaftState<T> {
        let later = term > self.current_term;
        RaftState {
            current_term: if later {
                term
            } else {
                self.current_term
            },
            voted_for: if later {
                None
            } else {
                self.voted_for
            },
            pending_persist_term: later || self.pending_persist_term,
            pending_persist_voted_for: later || self.pending_persist_voted_for,
            role: Role::Follower,
            leader,
            votes_received: Set::empty(),
            election_deadline: deadline(now, timeout),
            pending_persist_log_from: None,
            ..self
        }
    }

    /// Commit up to `target` and queue what was not yet applied for delivery.
    pub open spec fn committed_to(self, target: u64) -> RaftState<T> {
        RaftState {
            commit_index: Some(target),
            pending_persist_commit_index: true,
            pending_decisions: self.pending_decisions + decisions_between(
                self.log,
                self.last_applied,
                target,
            ),
            last_applied: Some(target),
            ..self
        }
    }

    /// Whether `index` lies behind the commit index.
    pub open spec fn beyond_commit(self, index: u64) -> bool {
        match self.commit_index {
            None => true,
            Some(c) => index > c,
        }
    }

    /// A leader commits the highest index held by a majority, if the entry
    /// there is of its own term.
    pub open spec fn advance_commit(self) -> RaftState<T> {
        match quorum_index(self.match_index, self.quorum()) {
            Some(c) => if c < self.log.len() && self.log[c as int].term == self.current_term
                && self.beyond_commit(c) {
                self.committed_to(c)
            } else {
                self
            },
            None => self,
        }
    }

    /// The append message that carries the log from position `from` on.
    pub open spec fn append_from(self, from: int) -> RaftMsg<T> {
        RaftMsg::AppendEntries {
            term: self.current_term,
            leader: self.node_id,
            prev_log_index: if from == 0 {
                None
            } else {
                Some((from - 1) as u64)
            },
            prev_log_term: if from == 0 {
                0
            } else {
                self.log[from - 1].term
            },
            entries: self.log.skip(from),
            leader_commit: self.commit_index,
        }
    }

    /// Broadcast the log from position `from` on.
    pub open spec fn broadcast_from(self, from: int, now: u64) -> Step<T> {
        (RaftState { last_heartbeat_sent: Some(now), ..self }, all(self.append_from(from)))
    }

    /// Append `values` as entries of the current term.
    pub open spec fn extended(self, values: Seq<T>) -> RaftState<T> {
        RaftState {
            log: self.log + values.map_values(
                |v: T| Entry { term: self.current_term, value: v },
            ),
            pending_persist_log_from: kept_or(
                self.pending_persist_log_from,
                self.log.len() as u64,
            ),
            match_index: self.match_index.insert(
                self.node_id,
                Some((self.log.len() + values.len() - 1) as u64),
            ),
            ..self
        }
    }

    /// Take the lead of the current term; buffered proposals enter the log.
    pub open spec fn lead(self, now: u64) -> Step<T> {
        let fresh = RaftState {
            role: Role::Leader,
            leader: Some(self.node_id),
            next_index: Map::empty(),
            match_index: Map::empty(),
            pending_proposals: Seq::empty(),
            ..self
        };
        if self.pending_proposals.len() == 0 {
            fresh.broadcast_from(self.log.len() as int, now)
        } else {
            fresh.extended(self.pending_proposals).advance_commit().broadcast_from(
                self.log.len() as int,
                now,
            )
        }
    }

    /// Stand for election in the next term.
    pub open spec fn candidacy(self, now: u64, timeout: u64) -> RaftState<T> {
        RaftState {
            current_term: (self.current_term + 1) as u64,
            role: Role::Candidate,
            voted_for: Some(self.node_id),
            votes_received: set![self.node_id],
            leader: None,
            election_deadline: deadline(now, timeout),
            pending_persist_term: true,
            pending_persist_voted_for: true,
            ..self
        }
    }

    /// Start an election. A second election in a row hands the buffered
    /// proposals back as lost.
    pub open spec fn elect(self, now: u64, timeout: u64) -> Step<T> {
        let s = self.candidacy(now, timeout);
        if 1 >= self.quorum() {
            s.lead(now)
        } else {
            let was_candidate = self.role == Role::Candidate;
            (
                RaftState {
                    lost_proposals: if was_candidate {
                        self.lost_proposals + self.pending_proposals
                    } else {
                        self.lost_proposals
                    },
                    pending_proposals: if was_candidate {
                        Seq::empty()
                    } else {
                        self.pending_proposals
                    },
                    ..s
                },
                all(
                    RaftMsg::RequestVote {
                        term: s.current_term,
                        candidate: s.node_id,
                        last_log_index: last_index(s.log),
                        last_log_term: last_term(s.log),
                    },
                ),
            )
        }
    }

    /// Whether a vote is granted.
    pub open spec fn grants(
        self,
        term: u64,
        candidate: NodeName,
        last_log_index: Option<u64>,
        last_log_term: u64,
    ) -> bool {
        &&& term >= self.current_term
        &&& self.voted_for is None || self.voted_for == Some(candidate)
        &&& up_to_date(self.log, last_log_term, last_log_index)
    }

    /// Answer a vote request.
    pub open spec fn on_request_vote(
        self,
        term: u64,
        candidate: NodeName,
        last_log_index: Option<u64>,
        last_log_term: u64,
        now: u64,
        timeout: u64,
    ) -> Step<T> {
        let granted = self.grants(term, candidate, last_log_index, last_log_term);
        (
            if granted {
                RaftState {
                    voted_for: Some(candidate),
                    pending_persist_voted_for: true,
                    election_deadline: deadline(now, timeout),
                    ..self
                }
            } else {
                self
            },
            to(
                candidate,
                RaftMsg::RequestVoteResponse { term: self.current_term, vote_granted: granted },
            ),
        )
    }

    /// Count a vote.
    pub open spec fn on_vote_response(
        self,
        from: NodeName,
        term: u64,
        vote_granted: bool,
        now: u64,
    ) -> Step<T> {
        if self.role != Role::Candidate || term != self.current_term || !vote_granted {
            (self, silent())
        } else {
            let s = RaftState { votes_received: self.votes_received.insert(from), ..self };
            if s.votes_received.len() >= self.quorum() {
                s.lead(now)
            } else {
                (s, silent())
            }
        }
    }

    /// A refusal of an append, with a hint where the logs part.
    pub open spec fn refusal(
        self,
        leader: NodeName,
        conflict_term: Option<u64>,
        conflict_index: Option<u64>,
    ) -> Seq<Packet<RaftMsg<T>>> {
        to(
            leader,
            RaftMsg::AppendEntriesResponse {
                term: self.current_term,
                success: false,
                match_index: None,
                conflict_term,
                conflict_index,
            },
        )
    }

    /// Place the entries of a consistent append of the leader of `term` into the
    /// log. Where the log holds them all, what lies behind them is left over from
    /// older terms and goes, unless it holds an entry of `term`: then the append
    /// was overtaken by a later one of the same leader, and all stays.
    pub open spec fn placing(
        self,
        term: u64,
        prev: Option<u64>,
        entries: Seq<Entry<T>>,
    ) -> RaftState<T> {
        let start = after(prev);
        let k = held(self.log, start, entries, 0);
        let at = (start + k) as u64;
        let end = (start + entries.len()) as u64;
        if k < entries.len() {
            RaftState {
                log: placed(self.log, start, entries),
                pending_truncate_from: if at < self.log.len() {
                    Some(at)
                } else {
                    self.pending_truncate_from
                },
                pending_persist_log_from: if at < self.log.len() {
                    lowered(self.pending_persist_log_from, at)
                } else {
                    kept_or(self.pending_persist_log_from, at)
                },
                ..self
            }
        } else if verified_index(prev, entries.len() as int) is Some && self.log.len() > end
            && !has_term_from(self.log, end as int, term) {
            RaftState {
                log: placed(self.log, start, entries),
                pending_truncate_from: lowered(self.pending_truncate_from, end),
                ..self
            }
        } else {
            self
        }
    }

    /// Learn the leader's commit index, as far as the log was verified.
    pub open spec fn learn_commit(
        self,
        leader_commit: Option<u64>,
        verified: Option<u64>,
    ) -> RaftState<T> {
        match (leader_commit, verified) {
            (Some(lc), Some(last)) => {
                let target = if lc <= last {
                    lc
                } else {
                    last
                };
                if self.beyond_commit(target) {
                    self.committed_to(target)
                } else {
                    self
                }
            },
            _ => self,
        }
    }

    /// Recognise the leader of the current term.
    pub open spec fn following(self, leader: NodeName, now: u64, timeout: u64) -> RaftState<T> {
        RaftState {
            role: Role::Follower,
            leader: Some(leader),
            election_deadline: deadline(now, timeout),
            ..self
        }
    }

    /// Answer an append.
    pub open spec fn on_append_entries(
        self,
        term: u64,
        leader: NodeName,
        prev: Option<u64>,
        prev_term: u64,
        entries: Seq<Entry<T>>,
        leader_commit: Option<u64>,
        now: u64,
        timeout: u64,
    ) -> Step<T> {
        if term < self.current_term || (term == self.current_term && self.role == Role::Leader) {
            (self, self.refusal(leader, None, None))
        } else {
            let s = self.following(leader, now, timeout);
            if !holds_prev(s.log, prev, prev_term) {
                if prev->0 >= s.log.len() {
                    (s, s.refusal(leader, None, Some(s.log.len() as u64)))
                } else {
                    let ours = s.log[prev->0 as int].term;
                    (s, s.refusal(leader, Some(ours), Some(first_of_term(s.log, ours) as u64)))
                }
            } else {
                s.accept_append(term, leader, prev, entries, leader_commit)
            }
        }
    }

    /// Take in an append that fits the log.
    pub open spec fn accept_append(
        self,
        term: u64,
        leader: NodeName,
        prev: Option<u64>,
        entries: Seq<Entry<T>>,
        leader_commit: Option<u64>,
    ) -> Step<T> {
        let verified = verified_index(prev, entries.len() as int);
        let done = self.placing(term, prev, entries).learn_commit(leader_commit, verified);
        (
            RaftState { pending_proposals: Seq::empty(), ..done },
            to(
                leader,
                RaftMsg::AppendEntriesResponse {
                    term: done.current_term,
                    success: true,
                    match_index: verified,
                    conflict_term: None,
                    conflict_index: None,
                },
            ) + forwards(leader, self.pending_proposals),
        )
    }

    /// Where the next append to a follower that refused one starts.
    pub open spec fn backed_up(
        self,
        from: NodeName,
        conflict_term: Option<u64>,
        conflict_index: Option<u64>,
    ) -> int {
        let wanted: int = match (conflict_index, conflict_term) {
            (Some(ci), Some(ct)) => if has_term(self.log, ct) {
                (choose|i: int| is_last_of_term(self.log, ct, i)) + 1
            } else {
                ci as int
            },
            (Some(ci), None) => ci as int,
            (None, _) => {
                let current = if self.next_index.contains_key(from) {
                    self.next_index[from] as int
                } else {
                    self.log.len() as int
                };
                if current > 0 {
                    current - 1
                } else {
                    0
                }
            },
        };
        if wanted <= self.log.len() {
            wanted
        } else {
            self.log.len() as int
        }
    }

    /// Learn how far a follower's log goes.
    pub open spec fn on_append_response(
        self,
        from: NodeName,
        term: u64,
        success: bool,
        match_index: Option<u64>,
        conflict_term: Option<u64>,
        conflict_index: Option<u64>,
    ) -> Step<T> {
        if self.role != Role::Leader || term != self.current_term {
            (self, silent())
        } else if success {
            match match_index {
                Some(mi) => if mi >= self.log.len() {
                    (self, silent())
                } else {
                    (
                        RaftState {
                            match_index: self.match_index.insert(from, Some(mi)),
                            next_index: self.next_index.insert(from, (mi + 1) as u64),
                            ..self
                        }.advance_commit(),
                        silent(),
                    )
                },
                None => (self, silent()),
            }
        } else {
            let next = self.backed_up(from, conflict_term, conflict_index);
            (
                RaftState { next_index: self.next_index.insert(from, next as u64), ..self },
                to(from, self.append_from(next)),
            )
        }
    }

    /// Take in a proposal: a leader appends it, a follower forwards it to its
    /// leader, and without a leader it is buffered.
    pub open spec fn propose(self, value: T, now: u64) -> Step<T> {
        if self.role == Role::Leader {
            self.extended(seq![value]).advance_commit().broadcast_from(self.log.len() as int, now)
        } else {
            match self.leader {
                Some(leader) => (self, to(leader, RaftMsg::Forward { value, hops: 0 })),
                None => (
                    RaftState { pending_proposals: self.pending_proposals.push(value), ..self },
                    silent(),
                ),
            }
        }
    }

    /// Take in a forwarded proposal.
    pub open spec fn on_forward(self, from: NodeName, value: T, hops: u8, now: u64) -> Step<T> {
        if self.role == Role::Leader {
            self.propose(value, now)
        } else if self.leader is Some && self.leader->0 != from {
            if hops + 1 >= MAX_FORWARD_HOPS {
                (self, silent())
            } else {
                (self, to(self.leader->0, RaftMsg::Forward { value, hops: (hops + 1) as u8 }))
            }
        } else {
            (
                RaftState { pending_proposals: self.pending_proposals.push(value), ..self },
                silent(),
            )
        }
    }

    /// The state in which a message is handled: a later term in it makes the
    /// node a follower of that term first.
    pub open spec fn caught_up(self, message: RaftMsg<T>, now: u64, timeout: u64) -> RaftState<T> {
        match term_of(message) {
            Some(t) => if t > self.current_term {
                self.step_down(t, None, now, timeout)
            } else {
                self
            },
            None => self,
        }
    }

    /// Handle a message.
    pub open spec fn receive(
        self,
        from: NodeName,
        message: RaftMsg<T>,
        now: u64,
        timeout: u64,
    ) -> Step<T> {
        let s = self.caught_up(message, now, timeout);
        match message {
            RaftMsg::RequestVote { term, candidate, last_log_index, last_log_term } => {
                s.on_request_vote(term, candidate, last_log_index, last_log_term, now, timeout)
            },
            RaftMsg::RequestVoteResponse { term, vote_granted } => {
                s.on_vote_response(from, term, vote_granted, now)
            },
            RaftMsg::AppendEntries {
                term,
                leader,
                prev_log_index,
                prev_log_term,
                entries,
                leader_commit,
            } => {
                s.on_append_entries(
                    term,
                    leader,
                    prev_log_index,
                    prev_log_term,
                    entries,
                    leader_commit,
                    now,
                    timeout,
                )
            },
            RaftMsg::AppendEntriesResponse {
                term,
                success,
                match_index,
                conflict_term,
                conflict_index,
            } => {
                s.on_append_response(from, term, success, match_index, conflict_term, conflict_index)
            },
            RaftMsg::Forward { value, hops } => s.on_forward(from, value, hops, now),
        }
    }

    /// Whether a tick at `now` starts an election.
    pub open spec fn election_due(self, now: u64) -> bool {
        self.role != Role::Leader && now >= self.election_deadline
    }

    /// Whether a tick at `now` sends a heartbeat.
    pub open spec fn heartbeat_due(self, now: u64) -> bool {
        self.role == Role::Leader && match self.last_heartbeat_sent {
            None => true,
            Some(t) => (if now >= t {
                now - t
            } else {
                0
            }) >= self.config.heartbeat_interval,
        }
    }

    /// Send a heartbeat or start an election, where one is due.
    pub open spec fn lapse(self, now: u64, timeout: u64) -> Step<T> {
        if self.heartbeat_due(now) {
            self.broadcast_from(self.log.len() as int, now)
        } else if self.election_due(now) {
            self.elect(now, timeout)
        } else {
            (self, silent())
        }
    }

    /// Queue what is committed and was not yet applied for delivery. A restart
    /// leaves such entries behind: those after the highest decided slot.
    pub open spec fn reapplied(self) -> RaftState<T> {
        match self.commit_index {
            Some(c) => if c < self.log.len() && after(self.last_applied) <= c {
                RaftState {
                    pending_decisions: self.pending_decisions + decisions_between(
                        self.log,
                        self.last_applied,
                        c,
                    ),
                    last_applied: Some(c),
                    ..self
                }
            } else {
                self
            },
            None => self,
        }
    }

    /// Let time pass.
    pub open spec fn tick(self, now: u64, timeout: u64) -> Step<T> {
        let (s, out) = self.lapse(now, timeout);
        (s.reapplied(), out)
    }
}

/// The term a message carries.
pub open spec fn term_of<T>(message: RaftMsg<T>) -> Option<u64> {
    match message {
        RaftMsg::RequestVote { term, .. } => Some(term),
        RaftMsg::RequestVoteResponse { term, .. } => Some(term),
        RaftMsg::AppendEntries { term, .. } => Some(term),
        RaftMsg::AppendEntriesResponse { term, .. } => Some(term),
        RaftMsg::Forward { .. } => None,
    }
}

/// The highest of a set of slots.
pub open spec fn highest(slots: Set<u64>) -> Option<u64> {
    if exists|m: u64| is_highest(slots, m) {
        Some(choose|m: u64| is_highest(slots, m))
    } else {
        None
    }
}

/// Whether `m` is the highest of a set of slots.
pub open spec fn is_highest(slots: Set<u64>, m: u64) -> bool {
    slots.contains(m) && forall|x: u64| #[trigger] slots.contains(x) ==> x <= m
}

/// The higher of two optional indexes.
pub open spec fn higher_of(a: Option<u64>, b: Option<u64>) -> Option<u64> {
    match (a, b) {
        (Some(x), Some(y)) => if x >= y {
            Some(x)
        } else {
            Some(y)
        },
        (Some(x), None) => Some(x),
        (None, _) => b,
    }
}

/// An index, moved back to the last entry of a log where it lies behind it.
pub open spec fn capped<T>(index: Option<u64>, log: Seq<Entry<T>>) -> Option<u64> {
    match (index, last_index(log)) {
        (Some(i), Some(last)) => if i <= last {
            Some(i)
        } else {
            Some(last)
        },
        _ => None,
    }
}

/// What a node writes to its storage.
#[verifier::ext_equal]
pub struct Persisted<T> {
    pub term: Option<u64>,
    pub voted_for: Option<Option<NodeName>>,
    pub truncate_from: Option<u64>,
    pub append_from: Option<u64>,
    pub log_snapshot: Seq<Entry<T>>,
    pub commit_index: Option<Option<u64>>,
}

impl<T> RaftState<T> {
    /// The state after a restart from persisted state.
    ///
    /// The commit index is the higher of the persisted one and the highest
    /// decided slot, as far as the log goes; what lies behind the highest
    /// decided slot is applied again at the next tick. A node restarts as a follower, unless it
    /// is alone and had won an election in the persisted term.
    pub open spec fn restored(
        self,
        term: u64,
        voted_for: Option<NodeName>,
        log: Seq<Entry<T>>,
        decided: Set<u64>,
        persisted_commit_index: Option<u64>,
        now: u64,
        timeout: u64,
    ) -> RaftState<T> {
        let leads = self.total_nodes == 1 && term > 0 && voted_for == Some(self.node_id);
        RaftState {
            current_term: term,
            voted_for,
            log,
            commit_index: capped(higher_of(persisted_commit_index, highest(decided)), log),
            last_applied: highest(decided),
            role: if leads {
                Role::Leader
            } else {
                Role::Follower
            },
            leader: if leads {
                Some(self.node_id)
            } else {
                None
            },
            next_index: Map::empty(),
            match_index: if leads && log.len() > 0 {
                map![self.node_id => last_index(log)]
            } else {
                Map::empty()
            },
            election_deadline: deadline(now, timeout),
            votes_received: Set::empty(),
            pending_decisions: Seq::empty(),
            pending_persist_term: false,
            pending_persist_voted_for: false,
            pending_persist_log_from: None,
            pending_truncate_from: None,
            pending_persist_commit_index: false,
            pending_proposals: Seq::empty(),
            lost_proposals: Seq::empty(),
            ..self
        }
    }

    /// What has to be persisted before the next message is sent.
    pub open spec fn persist_intent(self) -> Persisted<T> {
        Persisted {
            term: if self.pending_persist_term {
                Some(self.current_term)
            } else {
                None
            },
            voted_for: if self.pending_persist_voted_for {
                Some(self.voted_for)
            } else {
                None
            },
            truncate_from: self.pending_truncate_from,
            append_from: self.pending_persist_log_from,
            log_snapshot: if self.pending_persist_log_from is Some {
                self.log
            } else {
                Seq::empty()
            },
            commit_index: if self.pending_persist_commit_index {
                Some(self.commit_index)
            } else {
                None
            },
        }
    }

    /// The state once nothing has to be persisted any more.
    pub open spec fn persisted(self) -> RaftState<T> {
        RaftState {
            pending_persist_term: false,
            pending_persist_voted_for: false,
            pending_persist_log_from: None,
            pending_truncate_from: None,
            pending_persist_commit_index: false,
            ..self
        }
    }

    /// Whether nothing has to be persisted.
    pub open spec fn clean(self) -> bool {
        &&& !self.pending_persist_term
        &&& !self.pending_persist_voted_for
        &&& self.pending_persist_log_from is None
        &&& self.pending_truncate_from is None
        &&& !self.pending_persist_commit_index
    }

    /// Whether a storage holds the persistent state of this node.
    pub open spec fn mirrored_by(self, stored: RaftStored<T>) -> bool {
        &&& stored.term == self.current_term
        &&& stored.voted_for == self.voted_for
        &&& stored.log == self.log
        &&& stored.commit_index == self.commit_index
    }

    /// A node without work of its own: no entries and no proposals at hand, and
    /// no heartbeats to send.
    pub open spec fn idle(self) -> bool {
        &&& self.log.len() == 0
        &&& self.pending_proposals.len() == 0
        &&& self.lost_proposals.len() == 0
        &&& self.role != Role::Leader
    }
}

/// A storage after an intent was written: term, vote, truncation, entries and
/// commit index, in this order.
pub open spec fn written<T>(stored: RaftStored<T>, intent: Persisted<T>) -> RaftStored<T> {
    let kept = match intent.truncate_from {
        Some(i) => truncated(stored.log, i),
        None => stored.log,
    };
    RaftStored {
        term: match intent.term {
            Some(t) => t,
            None => stored.term,
        },
        voted_for: match intent.voted_for {
            Some(v) => v,
            None => stored.voted_for,
        },
        log: match intent.append_from {
            Some(i) => kept + intent.log_snapshot.skip(i as int),
            None => kept,
        },
        commit_index: match intent.commit_index {
            Some(c) => c,
            None => stored.commit_index,
        },
        ..stored
    }
}

impl<T> Persisted<T> {
    /// The first `count` of the five writes of an intent.
    pub open spec fn first(self, count: int) -> Persisted<T> {
        Persisted {
            term: if count > 0 {
                self.term
            } else {
                None
            },
            voted_for: if count > 1 {
                self.voted_for
            } else {
                None
            },
            truncate_from: if count > 2 {
                self.truncate_from
            } else {
                None
            },
            append_from: if count > 3 {
                self.append_from
            } else {
                None
            },
            commit_index: if count > 4 {
                self.commit_index
            } else {
                None
            },
            ..self
        }
    }
}

/// A storage in which the write after the first `count` of an intent failed: the
/// writes before it are done, those after it are not, and what it writes itself
/// may hold anything.
pub open spec fn stops_after<T>(
    stored: RaftStored<T>,
    intent: Persisted<T>,
    count: int,
    after: RaftStored<T>,
) -> bool {
    let done = written(stored, intent.first(count));
    &&& 0 <= count < 5
    &&& after == (RaftStored {
        term: if count == 0 {
            after.term
        } else {
            done.term
        },
        voted_for: if count == 1 {
            after.voted_for
        } else {
            done.voted_for
        },
        log: if count == 2 || count == 3 {
            after.log
        } else {
            done.log
        },
        commit_index: if count == 4 {
            after.commit_index
        } else {
            done.commit_index
        },
        ..done
    })
}

/// A storage in which one of the writes of an intent failed.
pub open spec fn cut_short<T>(
    stored: RaftStored<T>,
    intent: Persisted<T>,
    after: RaftStored<T>,
) -> bool {
    exists|count: int| #[trigger] stops_after(stored, intent, count, after)
}

/// A table of decisions after more were saved.
pub open spec fn saved<T>(decisions: Map<u64, T>, more: Seq<(u64, T)>) -> Map<u64, T>
    decreases more.len(),
{
    if more.len() == 0 {
        decisions
    } else {
        saved(decisions, more.drop_last()).insert(more.last().0, more.last().1)
    }
}

/// A storage in which the save after the first `count` of a list of decisions
/// failed: what it holds of that slot is open, and nothing else.
pub open spec fn saving_stops<T>(
    stored: RaftStored<T>,
    more: Seq<(u64, T)>,
    count: int,
    after: RaftStored<T>,
) -> bool {
    &&& 0 <= count < more.len()
    &&& after == (RaftStored { decisions: after.decisions, ..stored })
    &&& after.decisions.remove(more[count].0) == saved(stored.decisions, more.take(count)).remove(
        more[count].0,
    )
}

/// A storage in which one of a list of decisions could not be saved.
pub open spec fn saving_failed<T>(
    stored: RaftStored<T>,
    more: Seq<(u64, T)>,
    after: RaftStored<T>,
) -> bool {
    exists|count: int| #[trigger] saving_stops(stored, more, count, after)
}

} // verus!
