//! The Raft state machine.
//!
//! A [`RaftProtocol`] holds the state of one node. Its methods take an event
//! and return the messages to send; `raft_model` says what each does.
use crate::collections::{NodeMap, NodeSet};
use crate::config::{copy_id, NodeId, RaftConfig};
use crate::message::{
    copy_entries, decided, entries_of, no_messages, packets, to_all, to_peer, Decision, LogEntry,
    Outgoing, RaftMessage, SendTarget, MAX_FORWARD_HOPS,
};
use crate::raft_model::{
    after, all, deadline, decisions_between, first_of_term, forwards, has_term, has_term_from, held,
    holds_prev, is_last_of_term, last_index, last_term, majority, placed, quorum_index, up_to_date,
    verified_index, RaftState, Role,
};
use crate::error::StorageError;
use crate::node::NodeRole;
use crate::raft_model::{
    cut_short, highest, is_highest, saved, saving_failed, saving_stops, stops_after, written,
    Persisted,
};
use crate::storage::{
    raft_flush_fails, raft_load_fails, raft_save_fails, RaftStorage, RaftStored,
};
use crate::random::{sample_election_timeout, timeout_allowed};
use crate::value::{opt, views, Value};
use vstd::prelude::*;

verus! {

/// The state of one Raft node, together with the storage it persists to.
///
/// Nodes begin in term 0 as followers; a single-node cluster completes a
/// one-vote election on the first tick.
pub struct RaftProtocol<V, S> {
    pub node_id: NodeId,
    pub total_nodes: usize,
    pub config: RaftConfig,
    // Persistent state, mirrored to the storage.
    pub current_term: u64,
    pub voted_for: Option<NodeId>,
    pub log: Vec<LogEntry<V>>,
    // Volatile state on all nodes.
    pub commit_index: Option<u64>,
    pub last_applied: Option<u64>,
    pub role: Role,
    pub leader: Option<NodeId>,
    // Volatile state on leaders.
    pub next_index: NodeMap<u64>,
    pub match_index: NodeMap<Option<u64>>,
    // Election bookkeeping.
    pub election_deadline: u64,
    pub votes_received: NodeSet,
    // Heartbeat bookkeeping of a leader.
    pub last_heartbeat_sent: Option<u64>,
    // Decisions ready to be delivered.
    pub pending_decisions: Vec<Decision<V>>,
    // What has to be persisted before the next message is sent.
    pub pending_persist_term: bool,
    pub pending_persist_voted_for: bool,
    pub pending_persist_log_from: Option<u64>,
    pub pending_truncate_from: Option<u64>,
    pub pending_persist_commit_index: bool,
    // Proposals buffered while no leader is known.
    pub pending_proposals: Vec<V>,
    // Proposals whose presumed leader is gone, to be routed again.
    pub lost_proposals: Vec<V>,
    pub storage: S,
}

impl<V: Value, S> View for RaftProtocol<V, S> {
    type V = RaftState<V::V>;

    open spec fn view(&self) -> RaftState<V::V> {
        RaftState {
            node_id: self.node_id@,
            total_nodes: self.total_nodes,
            config: self.config,
            current_term: self.current_term,
            voted_for: opt(self.voted_for),
            log: entries_of(self.log@),
            commit_index: self.commit_index,
            last_applied: self.last_applied,
            role: self.role,
            leader: opt(self.leader),
            next_index: self.next_index@,
            match_index: self.match_index@,
            election_deadline: self.election_deadline,
            votes_received: self.votes_received@,
            last_heartbeat_sent: self.last_heartbeat_sent,
            pending_decisions: decided(self.pending_decisions@),
            pending_persist_term: self.pending_persist_term,
            pending_persist_voted_for: self.pending_persist_voted_for,
            pending_persist_log_from: self.pending_persist_log_from,
            pending_truncate_from: self.pending_truncate_from,
            pending_persist_commit_index: self.pending_persist_commit_index,
            pending_proposals: views(self.pending_proposals@),
            lost_proposals: views(self.lost_proposals@),
        }
    }
}

/// The number of nodes in a majority of `total_nodes`.
pub fn quorum_of(total_nodes: usize) -> (quorum: usize)
    ensures
        quorum == majority(total_nodes),
{
    total_nodes / 2 + 1
}

/// The highest index that at least `quorum` nodes hold.
pub fn highest_replicated(match_index: &NodeMap<Option<u64>>, quorum: usize) -> (index: Option<u64>)
    requires
        match_index.wf(),
        quorum > 0,
    ensures
        index == quorum_index(match_index@, quorum as nat),
{
    match_index.highest_replicated(quorum)
}

impl<V: Value, S> RaftProtocol<V, S> {
    /// The node sets and maps hold no identity twice.
    pub open spec fn wf(&self) -> bool {
        &&& self.next_index.wf()
        &&& self.match_index.wf()
        &&& self.votes_received.wf()
    }

    /// The number of nodes in a majority.
    pub fn quorum(&self) -> (quorum: usize)
        ensures
            quorum == self@.quorum(),
    {
        quorum_of(self.total_nodes)
    }

    fn last_log_index(&self) -> (index: Option<u64>)
        ensures
            index == last_index(self@.log),
    {
        if self.log.len() == 0 {
            None
        } else {
            Some(self.log.len() as u64 - 1)
        }
    }

    fn last_log_term(&self) -> (term: u64)
        ensures
            term == last_term(self@.log),
    {
        if self.log.len() == 0 {
            0
        } else {
            self.log[self.log.len() - 1].term
        }
    }

    /// Whether a candidate's log that ends in `cand_last_term` at
    /// `cand_last_index` is at least as up-to-date as ours.
    pub fn candidate_log_at_least_as_up_to_date(
        &self,
        cand_last_term: u64,
        cand_last_index: Option<u64>,
    ) -> (r: bool)
        ensures
            r == up_to_date(self@.log, cand_last_term, cand_last_index),
    {
        let my_term: u64 = self.last_log_term();
        if cand_last_term != my_term {
            return cand_last_term > my_term;
        }
        match (cand_last_index, self.last_log_index()) {
            (Some(c), Some(m)) => c >= m,
            (Some(_), None) => true,
            (None, None) => true,
            (None, Some(_)) => false,
        }
    }

    /// Steps down: a higher term is taken over with no vote in it, and a log
    /// that was to be persisted as a leader's no longer is.
    pub fn become_follower(&mut self, term: u64, leader: Option<NodeId>, now: u64, timeout: u64)
        requires
            old(self).wf(),
        ensures
            final(self).wf(),
            final(self)@ == old(self)@.step_down(term, opt(leader), now, timeout),
            final(self).storage == old(self).storage,
    {
        if term > self.current_term {
            self.current_term = term;
            self.voted_for = None;
            self.pending_persist_term = true;
            self.pending_persist_voted_for = true;
        }
        self.role = Role::Follower;
        self.leader = leader;
        self.votes_received.clear();
        self.election_deadline = now.saturating_add(timeout);
        self.pending_persist_log_from = None;
    }

    /// Queue every entry behind the last applied one, up to the new commit
    /// index, for delivery.
    fn commit_to(&mut self, target: u64)
        requires
            old(self).wf(),
            target < old(self).log.len(),
        ensures
            final(self).wf(),
            final(self)@ == old(self)@.committed_to(target),
            final(self).storage == old(self).storage,
    {
        self.commit_index = Some(target);
        self.pending_persist_commit_index = true;
        self.apply_committed_entries(target);
    }

    fn apply_committed_entries(&mut self, target: u64)
        requires
            old(self).wf(),
            target < old(self).log.len(),
        ensures
            final(self).wf(),
            final(self)@ == (RaftState {
                pending_decisions: old(self)@.pending_decisions + decisions_between(
                    old(self)@.log,
                    old(self)@.last_applied,
                    target,
                ),
                last_applied: Some(target),
                ..old(self)@
            }),
            final(self).storage == old(self).storage,
    {
        let behind: bool = match self.last_applied {
            Some(a) => a < target,
            None => true,
        };
        let ghost before = decided(self.pending_decisions@);
        let ghost new = decisions_between(self@.log, self.last_applied, target);
        if behind {
            let start: u64 = match self.last_applied {
                Some(a) => a + 1,
                None => 0,
            };
            let mut idx: u64 = start;
            while idx <= target
                invariant
                    start <= idx <= target + 1,
                    start == after(old(self).last_applied),
                    target < self.log.len(),
                    *self == (RaftProtocol { pending_decisions: self.pending_decisions, ..*old(self) }),
                    decided(self.pending_decisions@) == before + new.take(idx - start),
                    new == decisions_between(old(self)@.log, old(self).last_applied, target),
                    self.log@ == old(self).log@,
                decreases target + 1 - idx,
            {
                let decision = Decision {
                    slot: idx,
                    value: self.log[idx as usize].value.copied(),
                };
                let ghost added = decision@;
                let ghost was = decided(self.pending_decisions@);
                assert(added == new[idx - start]) by {
                    assert(entries_of(self.log@)[idx as int] == self.log@[idx as int]@);
                }
                self.pending_decisions.push(decision);
                assert(decided(self.pending_decisions@) =~= was.push(added));
                assert(new.take(idx + 1 - start) =~= new.take(idx - start).push(new[idx - start]));
                idx += 1;
            }
            assert(new.take(idx - start) =~= new);
        }
        assert(behind || new =~= Seq::empty());
        self.last_applied = Some(target);
        assert(decided(self.pending_decisions@) =~= before + new);
        assert(self@ =~= (RaftState {
            pending_decisions: old(self)@.pending_decisions + decisions_between(
                old(self)@.log,
                old(self)@.last_applied,
                target,
            ),
            last_applied: Some(target),
            ..old(self)@
        }));
    }

    fn broadcast_heartbeat(&mut self, now: u64) -> (out: Vec<Outgoing<RaftMessage<V>>>)
        requires
            old(self).wf(),
        ensures
            final(self).wf(),
            (final(self)@, packets(out@)) == old(self)@.broadcast_from(
                old(self)@.log.len() as int,
                now,
            ),
            final(self).storage == old(self).storage,
    {
        self.last_heartbeat_sent = Some(now);
        let entries: Vec<LogEntry<V>> = Vec::new();
        assert(entries_of(entries@) =~= self@.log.skip(self@.log.len() as int));
        let out = to_all(
            RaftMessage::AppendEntries {
                term: self.current_term,
                leader: self.node_id.clone(),
                prev_log_index: self.last_log_index(),
                prev_log_term: self.last_log_term(),
                entries,
                leader_commit: self.commit_index,
            },
        );
        out
    }

    /// Broadcasts the entries of the log from position `from` on.
    fn broadcast_with_entries(&mut self, from: usize, now: u64) -> (out: Vec<
        Outgoing<RaftMessage<V>>,
    >)
        requires
            old(self).wf(),
            from <= old(self).log.len(),
        ensures
            final(self).wf(),
            (final(self)@, packets(out@)) == old(self)@.broadcast_from(from as int, now),
            final(self).storage == old(self).storage,
    {
        self.last_heartbeat_sent = Some(now);
        to_all(self.append_message(from))
    }

    /// The append message that carries the log from position `from` on.
    fn append_message(&self, from: usize) -> (message: RaftMessage<V>)
        requires
            from <= self.log.len(),
        ensures
            message@ == self@.append_from(from as int),
    {
        let prev_log_index: Option<u64> = if from == 0 {
            None
        } else {
            Some((from - 1) as u64)
        };
        let prev_log_term: u64 = if from == 0 {
            0
        } else {
            self.log[from - 1].term
        };
        RaftMessage::AppendEntries {
            term: self.current_term,
            leader: self.node_id.clone(),
            prev_log_index,
            prev_log_term,
            entries: copy_entries(&self.log, from),
            leader_commit: self.commit_index,
        }
    }

    fn try_advance_commit(&mut self)
        requires
            old(self).wf(),
        ensures
            final(self).wf(),
            final(self)@ == old(self)@.advance_commit(),
            final(self).storage == old(self).storage,
    {
        let quorum: usize = self.quorum();
        if let Some(c) = highest_replicated(&self.match_index, quorum) {
            if c < self.log.len() as u64 {
                let entry_term: u64 = self.log[c as usize].term;
                let beyond: bool = match self.commit_index {
                    None => true,
                    Some(current) => c > current,
                };
                if entry_term == self.current_term && beyond {
                    self.commit_to(c);
                }
            }
        }
    }

    /// Appends `value` to the log as an entry of the current term.
    fn append_own(&mut self, value: V)
        requires
            old(self).wf(),
        ensures
            final(self).wf(),
            final(self)@ == old(self)@.extended(seq![value@]),
            final(self).storage == old(self).storage,
    {
        let idx: u64 = self.log.len() as u64;
        let entry = LogEntry { term: self.current_term, value };
        self.log.push(entry);
        if self.pending_persist_log_from.is_none() {
            self.pending_persist_log_from = Some(idx);
        }
        self.match_index.insert(self.node_id.clone(), Some(idx));
        assert(self@.log =~= old(self)@.extended(seq![value@]).log);
        assert(self@ =~= old(self)@.extended(seq![value@]));
    }

    fn become_leader(&mut self, now: u64) -> (out: Vec<Outgoing<RaftMessage<V>>>)
        requires
            old(self).wf(),
        ensures
            final(self).wf(),
            (final(self)@, packets(out@)) == old(self)@.lead(now),
            final(self).storage == old(self).storage,
    {
        self.role = Role::Leader;
        self.leader = Some(self.node_id.clone());
        self.next_index.clear();
        self.match_index.clear();
        let ghost values = self@.pending_proposals;
        let ghost fresh = RaftState {
            role: Role::Leader,
            leader: Some(old(self)@.node_id),
            next_index: Map::empty(),
            match_index: Map::empty(),
            pending_proposals: Seq::empty(),
            ..old(self)@
        };
        if self.pending_proposals.len() == 0 {
            assert(self@ =~= fresh);
            return self.broadcast_heartbeat(now);
        }
        let start: usize = self.log.len();
        let mut buffered: Vec<V> = Vec::new();
        std::mem::swap(&mut buffered, &mut self.pending_proposals);
        assert(views(self.pending_proposals@) =~= Seq::empty());
        assert(self@ =~= fresh);
        let mut i: usize = 0;
        while i < buffered.len()
            invariant
                self.wf(),
                self.storage == old(self).storage,
                i <= buffered.len(),
                values == views(buffered@),
                values.len() > 0,
                i == 0 ==> self@ == fresh,
                i > 0 ==> self@ == fresh.extended(values.take(i as int)),
                fresh.log.len() == start,
            decreases buffered.len() - i,
        {
            let ghost before = self@;
            let value: V = buffered[i].copied();
            assert(value@ == values[i as int]);
            self.append_own(value);
            proof {
                let more = values.take(i + 1);
                assert(more =~= values.take(i as int).push(values[i as int]));
                assert(self@.log =~= fresh.extended(more).log);
                assert(self@.match_index =~= fresh.extended(more).match_index);
                assert(self@ =~= fresh.extended(more));
            }
            i += 1;
        }
        assert(values.take(i as int) =~= values);
        self.try_advance_commit();
        proof {
            let s = fresh.extended(values);
            assert(s.advance_commit().log == s.log);
        }
        self.broadcast_with_entries(start, now)
    }

    /// Starts an election in the next term.
    fn start_election(&mut self, now: u64, timeout: u64) -> (out: Vec<Outgoing<RaftMessage<V>>>)
        requires
            old(self).wf(),
            old(self).current_term < u64::MAX,
        ensures
            final(self).wf(),
            (final(self)@, packets(out@)) == old(self)@.elect(now, timeout),
            final(self).storage == old(self).storage,
    {
        let was_candidate: bool = self.role == Role::Candidate;
        self.current_term = self.current_term + 1;
        self.role = Role::Candidate;
        self.voted_for = Some(self.node_id.clone());
        self.votes_received.clear();
        self.votes_received.insert(self.node_id.clone());
        self.leader = None;
        self.election_deadline = now.saturating_add(timeout);
        self.pending_persist_term = true;
        self.pending_persist_voted_for = true;
        assert(self@ =~= old(self)@.candidacy(now, timeout));
        assert(self@.votes_received.len() == 1);
        if self.votes_received.len() >= self.quorum() {
            return self.become_leader(now);
        }
        if was_candidate {
            let ghost lost = views(self.lost_proposals@);
            let ghost pending = views(self.pending_proposals@);
            let mut buffered: Vec<V> = Vec::new();
            std::mem::swap(&mut buffered, &mut self.pending_proposals);
            self.lost_proposals.append(&mut buffered);
            assert(views(self.lost_proposals@) =~= lost + pending);
            assert(views(self.pending_proposals@) =~= Seq::empty());
        }
        let out = to_all(
            RaftMessage::RequestVote {
                term: self.current_term,
                candidate: self.node_id.clone(),
                last_log_index: self.last_log_index(),
                last_log_term: self.last_log_term(),
            },
        );
        assert(self@ =~= old(self)@.elect(now, timeout).0);
        out
    }

    /// Answer a request for the vote: it is given once per term, to a candidate
    /// whose log is at least as up to date, and to the same one again.
    pub fn handle_request_vote(
        &mut self,
        term: u64,
        candidate: NodeId,
        last_log_index: Option<u64>,
        last_log_term: u64,
        now: u64,
        timeout: u64,
    ) -> (out: Vec<Outgoing<RaftMessage<V>>>)
        requires
            old(self).wf(),
        ensures
            final(self).wf(),
            (final(self)@, packets(out@)) == old(self)@.on_request_vote(
                term,
                candidate@,
                last_log_index,
                last_log_term,
                now,
                timeout,
            ),
            final(self).storage == old(self).storage,
    {
        let grant: bool = if term < self.current_term {
            false
        } else {
            let voted_for_other: bool = match &self.voted_for {
                Some(v) => *v != candidate,
                None => false,
            };
            !voted_for_other && self.candidate_log_at_least_as_up_to_date(
                last_log_term,
                last_log_index,
            )
        };
        if grant {
            self.voted_for = Some(candidate.clone());
            self.pending_persist_voted_for = true;
            self.election_deadline = now.saturating_add(timeout);
        }
        to_peer(
            candidate,
            RaftMessage::RequestVoteResponse { term: self.current_term, vote_granted: grant },
        )
    }

    /// Count a vote; a quorum of them makes the candidate the leader.
    pub fn handle_request_vote_response(
        &mut self,
        from: NodeId,
        term: u64,
        vote_granted: bool,
        now: u64,
    ) -> (out: Vec<Outgoing<RaftMessage<V>>>)
        requires
            old(self).wf(),
        ensures
            final(self).wf(),
            (final(self)@, packets(out@)) == old(self)@.on_vote_response(
                from@,
                term,
                vote_granted,
                now,
            ),
            final(self).storage == old(self).storage,
    {
        if self.role != Role::Candidate || term != self.current_term {
            return no_messages();
        }
        if vote_granted {
            self.votes_received.insert(from);
            if self.votes_received.len() >= self.quorum() {
                return self.become_leader(now);
            }
        }
        no_messages()
    }

    /// A refusal of an append, with a hint where the logs part.
    fn refuse(
        &self,
        leader: NodeId,
        conflict_term: Option<u64>,
        conflict_index: Option<u64>,
    ) -> (out: Vec<Outgoing<RaftMessage<V>>>)
        ensures
            packets(out@) == self@.refusal(leader@, conflict_term, conflict_index),
    {
        to_peer(
            leader,
            RaftMessage::AppendEntriesResponse {
                term: self.current_term,
                success: false,
                match_index: None,
                conflict_term,
                conflict_index,
            },
        )
    }

    /// The first position that holds an entry of the term held at `at`.
    fn first_of_term_at(&self, at: usize) -> (first: usize)
        requires
            at < self.log.len(),
        ensures
            first == first_of_term(self@.log, self.log[at as int].term),
    {
        let term: u64 = self.log[at].term;
        let mut i: usize = 0;
        while self.log[i].term != term
            invariant
                i <= at < self.log.len(),
                term == self.log[at as int].term,
                forall|j: int| 0 <= j < i ==> self.log[j].term != term,
            decreases at - i,
        {
            i += 1;
        }
        proof {
            let log = self@.log;
            assert(log[i as int].term == term);
            assert forall|j: int| 0 <= j < i implies log[j].term != term by {
                assert(log[j] == self.log[j]@);
            }
            let f = first_of_term(log, term);
            assert(0 <= f < log.len() && log[f].term == term);
            assert(f == i) by {
                if f < i {
                    assert(log[f].term != term);
                }
            }
        }
        i
    }

    /// Whether the log holds an entry of `term` at position `from` or behind it.
    fn holds_term_from(&self, from: usize, term: u64) -> (r: bool)
        requires
            from <= self.log.len(),
        ensures
            r == has_term_from(self@.log, from as int, term),
    {
        let ghost log = self@.log;
        let mut i: usize = from;
        while i < self.log.len()
            invariant
                from <= i <= self.log.len(),
                log == entries_of(self.log@),
                forall|j: int| from <= j < i ==> (#[trigger] log[j]).term != term,
            decreases self.log.len() - i,
        {
            assert(log[i as int] == self.log[i as int]@);
            if self.log[i].term == term {
                return true;
            }
            i += 1;
        }
        false
    }

    /// Places the entries of a consistent append into the log.
    fn place(&mut self, term: u64, prev_log_index: Option<u64>, entries: Vec<LogEntry<V>>)
        requires
            old(self).wf(),
            prev_log_index matches Some(p) ==> p < old(self).log.len(),
        ensures
            final(self).wf(),
            final(self)@ == old(self)@.placing(term, prev_log_index, entries_of(entries@)),
            verified_index(prev_log_index, entries.len() as int) matches Some(last) ==> last
                < final(self).log.len(),
            after(prev_log_index) + entries.len() <= final(self).log.len(),
            final(self).storage == old(self).storage,
    {
        let ghost log0 = self@.log;
        let ghost new = entries_of(entries@);
        let start: usize = match prev_log_index {
            Some(p) => p as usize + 1,
            None => 0,
        };
        let ghost k = held(log0, start as int, new, 0);
        let count: usize = entries.len();
        let mut i: usize = 0;
        // What the log already holds stays as it is.
        while i < count && i < self.log.len() - start && self.log[start + i].term == entries[i].term
            invariant
                i <= count,
                count == entries.len(),
                start <= self.log.len(),
                i <= self.log.len() - start,
                new == entries_of(entries@),
                log0 == entries_of(self.log@),
                k == held(log0, start as int, new, i as int),
            decreases count - i,
        {
            assert(log0[start + i] == self.log[start + i]@);
            assert(new[i as int] == entries[i as int]@);
            i += 1;
        }
        assert(k == i) by {
            if i < count && start + i < log0.len() {
                assert(log0[start + i] == self.log[start + i]@);
                assert(new[i as int] == entries[i as int]@);
            }
        }
        assert(log0.take(start + k) + new.skip(k) == placed(log0, start as int, new));
        if i < count {
            let at: u64 = (start + i) as u64;
            if start + i < self.log.len() {
                self.log.truncate(start + i);
                self.pending_truncate_from = Some(at);
                self.pending_persist_log_from = match self.pending_persist_log_from {
                    Some(from) => if from <= at {
                        Some(from)
                    } else {
                        Some(at)
                    },
                    None => Some(at),
                };
            } else if self.pending_persist_log_from.is_none() {
                self.pending_persist_log_from = Some(at);
            }
            assert(entries_of(self.log@) =~= log0.take(start + k));
            let ghost before = *self;
            while i < count
                invariant
                    0 <= k <= i <= count,
                    count == entries.len(),
                    new == entries_of(entries@),
                    self.log.len() == start + i,
                    entries_of(self.log@) == log0.take(start + k) + new.subrange(k, i as int),
                    *self == (RaftProtocol { log: self.log, ..before }),
                decreases count - i,
            {
                let ghost was = entries_of(self.log@);
                self.log.push(entries[i].copied());
                assert(entries_of(self.log@) =~= was.push(new[i as int]));
                assert(new.subrange(k, i + 1) =~= new.subrange(k, i as int).push(new[i as int]));
                assert(entries_of(self.log@) =~= log0.take(start + k) + new.subrange(k, i + 1));
                i += 1;
            }
            assert(new.subrange(k, count as int) =~= new.skip(k));
            assert(self@ =~= old(self)@.placing(term, prev_log_index, new));
        } else if count > 0 || prev_log_index.is_some() {
            // Nothing of an older term is left behind the last entry verified.
            let end: usize = start + count;
            if self.log.len() > end && !self.holds_term_from(end, term) {
                self.log.truncate(end);
                let end: u64 = end as u64;
                self.pending_truncate_from = match self.pending_truncate_from {
                    Some(from) => if from <= end {
                        Some(from)
                    } else {
                        Some(end)
                    },
                    None => Some(end),
                };
                assert(entries_of(self.log@) =~= placed(log0, start as int, new));
            }
            assert(self@ =~= old(self)@.placing(term, prev_log_index, new));
        }
    }

    /// Answer an append. One that was taken in before changes nothing but the time
    /// of the next election.
    pub fn handle_append_entries(
        &mut self,
        term: u64,
        leader: NodeId,
        prev_log_index: Option<u64>,
        prev_log_term: u64,
        entries: Vec<LogEntry<V>>,
        leader_commit: Option<u64>,
        now: u64,
        timeout: u64,
    ) -> (out: Vec<Outgoing<RaftMessage<V>>>)
        requires
            old(self).wf(),
        ensures
            final(self).wf(),
            (final(self)@, packets(out@)) == old(self)@.on_append_entries(
                term,
                leader@,
                prev_log_index,
                prev_log_term,
                entries_of(entries@),
                leader_commit,
                now,
                timeout,
            ),
            final(self).storage == old(self).storage,
    {
        // A stale leader is refused, and so is a second leader of our own term:
        // a leader never truncates its own log.
        if term < self.current_term || (term == self.current_term && self.role == Role::Leader) {
            return self.refuse(leader, None, None);
        }
        self.role = Role::Follower;
        self.leader = Some(leader.clone());
        self.election_deadline = now.saturating_add(timeout);
        let ghost s = old(self)@.following(leader@, now, timeout);
        assert(self@ =~= s);

        // The log must hold an entry of `prev_log_term` at `prev_log_index`.
        if let Some(prev) = prev_log_index {
            if prev >= self.log.len() as u64 {
                return self.refuse(leader, None, Some(self.log.len() as u64));
            }
            let ours: u64 = self.log[prev as usize].term;
            assert(s.log[prev as int] == self.log[prev as int]@);
            if ours != prev_log_term {
                let first: usize = self.first_of_term_at(prev as usize);
                return self.refuse(leader, Some(ours), Some(first as u64));
            }
        }
        assert(holds_prev(s.log, prev_log_index, prev_log_term));
        self.accept_append(term, leader, prev_log_index, entries, leader_commit)
    }

    /// Takes in an append that fits the log.
    fn accept_append(
        &mut self,
        term: u64,
        leader: NodeId,
        prev_log_index: Option<u64>,
        entries: Vec<LogEntry<V>>,
        leader_commit: Option<u64>,
    ) -> (out: Vec<Outgoing<RaftMessage<V>>>)
        requires
            old(self).wf(),
            prev_log_index matches Some(p) ==> p < old(self).log.len(),
        ensures
            final(self).wf(),
            (final(self)@, packets(out@)) == old(self)@.accept_append(
                term,
                leader@,
                prev_log_index,
                entries_of(entries@),
                leader_commit,
            ),
            final(self).storage == old(self).storage,
    {
        let count: usize = entries.len();
        self.place(term, prev_log_index, entries);
        let verified: Option<u64> = match prev_log_index {
            Some(prev) => Some(prev + count as u64),
            None => if count == 0 {
                None
            } else {
                Some(count as u64 - 1)
            },
        };
        self.learn_commit(leader_commit, verified);
        let reply: Vec<Outgoing<RaftMessage<V>>> = to_peer(
            leader.clone(),
            RaftMessage::AppendEntriesResponse {
                term: self.current_term,
                success: true,
                match_index: verified,
                conflict_term: None,
                conflict_index: None,
            },
        );
        self.forward_buffered(&leader, reply)
    }

    /// Commits as far as the leader did and the log was verified.
    fn learn_commit(&mut self, leader_commit: Option<u64>, verified: Option<u64>)
        requires
            old(self).wf(),
            verified matches Some(last) ==> last < old(self).log.len(),
        ensures
            final(self).wf(),
            final(self)@ == old(self)@.learn_commit(leader_commit, verified),
            final(self).storage == old(self).storage,
    {
        if let (Some(commit), Some(last)) = (leader_commit, verified) {
            let target: u64 = if commit <= last {
                commit
            } else {
                last
            };
            let beyond: bool = match self.commit_index {
                None => true,
                Some(current) => target > current,
            };
            if beyond {
                self.commit_to(target);
            }
        }
    }

    /// Hands the buffered proposals to the leader, behind `reply`.
    fn forward_buffered(&mut self, leader: &NodeId, reply: Vec<Outgoing<RaftMessage<V>>>) -> (out:
        Vec<Outgoing<RaftMessage<V>>>)
        requires
            old(self).wf(),
        ensures
            final(self).wf(),
            final(self)@ == (RaftState { pending_proposals: Seq::empty(), ..old(self)@ }),
            packets(out@) == packets(reply@) + forwards(leader@, old(self)@.pending_proposals),
            final(self).storage == old(self).storage,
    {
        let mut out = reply;
        let mut buffered: Vec<V> = Vec::new();
        std::mem::swap(&mut buffered, &mut self.pending_proposals);
        let ghost values = views(buffered@);
        let ghost start = packets(out@);
        let ghost all = forwards(leader@, values);
        let mut i: usize = 0;
        while i < buffered.len()
            invariant
                i <= buffered.len(),
                values == views(buffered@),
                all == forwards(leader@, values),
                packets(out@) == start + all.take(i as int),
            decreases buffered.len() - i,
        {
            let ghost was = packets(out@);
            let message = Outgoing {
                target: SendTarget::Peer(leader.clone()),
                message: RaftMessage::Forward { value: buffered[i].copied(), hops: 0 },
            };
            proof {
                assert(values[i as int] == buffered[i as int]@);
                assert(message@ == all[i as int]);
            }
            out.push(message);
            proof {
                assert(packets(out@) =~= was.push(all[i as int]));
                assert(all.take(i + 1) =~= all.take(i as int).push(all[i as int]));
                assert(packets(out@) =~= start + all.take(i + 1));
            }
            i += 1;
        }
        assert(all.take(i as int) =~= all);
        assert(views(self.pending_proposals@) =~= Seq::empty());
        assert(self@ =~= (RaftState { pending_proposals: Seq::empty(), ..old(self)@ }));
        out
    }

    /// Where the next append to a follower that refused one starts.
    fn back_up(
        &self,
        from: &NodeId,
        conflict_term: Option<u64>,
        conflict_index: Option<u64>,
    ) -> (next: usize)
        requires
            self.wf(),
        ensures
            next == self@.backed_up(from@, conflict_term, conflict_index),
            next <= self.log.len(),
    {
        let log_len: u64 = self.log.len() as u64;
        let wanted: u64 = match conflict_index {
            Some(ci) => match conflict_term {
                Some(ct) => match self.last_of_term(ct) {
                    Some(last) => last as u64 + 1,
                    None => ci,
                },
                None => ci,
            },
            None => {
                let current: u64 = match self.next_index.get(from) {
                    Some(next) => *next,
                    None => log_len,
                };
                if current > 0 {
                    current - 1
                } else {
                    0
                }
            },
        };
        if wanted <= log_len {
            wanted as usize
        } else {
            self.log.len()
        }
    }

    /// The last position that holds an entry of `term`.
    fn last_of_term(&self, term: u64) -> (last: Option<usize>)
        ensures
            last is Some == has_term(self@.log, term),
            last matches Some(i) ==> i < self.log.len() && i == choose|i: int|
                is_last_of_term(self@.log, term, i),
    {
        let ghost log = self@.log;
        let mut i: usize = self.log.len();
        while i > 0
            invariant
                i <= self.log.len(),
                log == entries_of(self.log@),
                forall|j: int| i <= j < log.len() ==> log[j].term != term,
            decreases i,
        {
            i -= 1;
            assert(log[i as int] == self.log[i as int]@);
            if self.log[i].term == term {
                assert(is_last_of_term(log, term, i as int));
                return Some(i);
            }
        }
        None
    }

    /// Hear how far a follower's log agrees: commit what a quorum holds, or send
    /// an earlier part of the log.
    pub fn handle_append_entries_response(
        &mut self,
        from: NodeId,
        term: u64,
        success: bool,
        match_index: Option<u64>,
        conflict_term: Option<u64>,
        conflict_index: Option<u64>,
    ) -> (out: Vec<Outgoing<RaftMessage<V>>>)
        requires
            old(self).wf(),
        ensures
            final(self).wf(),
            (final(self)@, packets(out@)) == old(self)@.on_append_response(
                from@,
                term,
                success,
                match_index,
                conflict_term,
                conflict_index,
            ),
            final(self).storage == old(self).storage,
    {
        if self.role != Role::Leader || term != self.current_term {
            return no_messages();
        }
        if success {
            if let Some(mi) = match_index {
                // An honest follower never reports an index behind our log.
                if mi >= self.log.len() as u64 {
                    return no_messages();
                }
                self.match_index.insert(from.clone(), Some(mi));
                self.next_index.insert(from, mi + 1);
                self.try_advance_commit();
            }
            no_messages()
        } else {
            let next: usize = self.back_up(&from, conflict_term, conflict_index);
            let ghost before = self@;
            self.next_index.insert(from.clone(), next as u64);
            let message: RaftMessage<V> = self.append_message(next);
            to_peer(from, message)
        }
    }

    /// Takes in a proposal: a leader appends and replicates it, a follower
    /// forwards it to its leader, and without a known leader it is buffered.
    pub fn propose(&mut self, value: V, now: u64) -> (out: Vec<Outgoing<RaftMessage<V>>>)
        requires
            old(self).wf(),
        ensures
            final(self).wf(),
            (final(self)@, packets(out@)) == old(self)@.propose(value@, now),
            final(self).storage == old(self).storage,
    {
        if self.role == Role::Leader {
            let start: usize = self.log.len();
            let ghost s = self@.extended(seq![value@]);
            self.append_own(value);
            self.try_advance_commit();
            assert(s.advance_commit().log == s.log);
            return self.broadcast_with_entries(start, now);
        }
        if let Some(leader) = &self.leader {
            return to_peer(leader.clone(), RaftMessage::Forward { value, hops: 0 });
        }
        self.buffer(value);
        no_messages()
    }

    /// Buffers a proposal until a leader is known.
    fn buffer(&mut self, value: V)
        requires
            old(self).wf(),
        ensures
            final(self).wf(),
            final(self)@ == (RaftState {
                pending_proposals: old(self)@.pending_proposals.push(value@),
                ..old(self)@
            }),
            final(self).storage == old(self).storage,
    {
        self.pending_proposals.push(value);
        assert(views(self.pending_proposals@) =~= views(old(self).pending_proposals@).push(value@));
    }

    /// Take a proposal that another node passed on: append it as the leader, else
    /// pass it on, or keep it until a leader is known.
    pub fn handle_forward(&mut self, from: NodeId, value: V, hops: u8, now: u64) -> (out: Vec<
        Outgoing<RaftMessage<V>>,
    >)
        requires
            old(self).wf(),
        ensures
            final(self).wf(),
            (final(self)@, packets(out@)) == old(self)@.on_forward(from@, value@, hops, now),
            final(self).storage == old(self).storage,
    {
        if self.role == Role::Leader {
            return self.propose(value, now);
        }
        if let Some(leader) = &self.leader {
            // Not back to the sender, and not for ever.
            if *leader != from {
                let next_hops: u8 = hops.saturating_add(1);
                if next_hops >= MAX_FORWARD_HOPS {
                    return no_messages();
                }
                return to_peer(leader.clone(), RaftMessage::Forward { value, hops: next_hops });
            }
        }
        self.buffer(value);
        no_messages()
    }

    /// Becomes a follower of a later term that a message carries.
    fn catch_up(&mut self, msg: &RaftMessage<V>, now: u64, timeout: u64)
        requires
            old(self).wf(),
        ensures
            final(self).wf(),
            final(self)@ == old(self)@.caught_up(msg@, now, timeout),
            final(self).storage == old(self).storage,
    {
        let incoming_term: Option<u64> = match msg {
            RaftMessage::RequestVote { term, .. } => Some(*term),
            RaftMessage::RequestVoteResponse { term, .. } => Some(*term),
            RaftMessage::AppendEntries { term, .. } => Some(*term),
            RaftMessage::AppendEntriesResponse { term, .. } => Some(*term),
            RaftMessage::Forward { .. } => None,
        };
        if let Some(term) = incoming_term {
            if term > self.current_term {
                self.become_follower(term, None, now, timeout);
            }
        }
    }

    /// Handles a message that carries no later term.
    fn dispatch(&mut self, from: NodeId, msg: RaftMessage<V>, now: u64, timeout: u64) -> (out: Vec<
        Outgoing<RaftMessage<V>>,
    >)
        requires
            old(self).wf(),
            old(self)@.caught_up(msg@, now, timeout) == old(self)@,
        ensures
            final(self).wf(),
            (final(self)@, packets(out@)) == old(self)@.receive(from@, msg@, now, timeout),
            final(self).storage == old(self).storage,
    {
        match msg {
            RaftMessage::RequestVote { term, candidate, last_log_index, last_log_term } => {
                self.handle_request_vote(
                    term,
                    candidate,
                    last_log_index,
                    last_log_term,
                    now,
                    timeout,
                )
            },
            RaftMessage::RequestVoteResponse { term, vote_granted } => {
                self.handle_request_vote_response(from, term, vote_granted, now)
            },
            RaftMessage::AppendEntries {
                term,
                leader,
                prev_log_index,
                prev_log_term,
                entries,
                leader_commit,
            } => {
                self.handle_append_entries(
                    term,
                    leader,
                    prev_log_index,
                    prev_log_term,
                    entries,
                    leader_commit,
                    now,
                    timeout,
                )
            },
            RaftMessage::AppendEntriesResponse {
                term,
                success,
                match_index,
                conflict_term,
                conflict_index,
            } => {
                self.handle_append_entries_response(
                    from,
                    term,
                    success,
                    match_index,
                    conflict_term,
                    conflict_index,
                )
            },
            RaftMessage::Forward { value, hops } => self.handle_forward(from, value, hops, now),
        }
    }

    /// Handles a message, with `timeout` as the election timeout where the
    /// message resets it.
    pub fn handle_message_with(
        &mut self,
        from: NodeId,
        msg: RaftMessage<V>,
        now: u64,
        timeout: u64,
    ) -> (out: Vec<Outgoing<RaftMessage<V>>>)
        requires
            old(self).wf(),
        ensures
            final(self).wf(),
            (final(self)@, packets(out@)) == old(self)@.receive(from@, msg@, now, timeout),
            final(self).storage == old(self).storage,
    {
        let ghost before = self@;
        self.catch_up(&msg, now, timeout);
        assert(self@.receive(from@, msg@, now, timeout) == before.receive(
            from@,
            msg@,
            now,
            timeout,
        ));
        self.dispatch(from, msg, now, timeout)
    }

    /// Handles a message; where it resets the election timeout, a new one is
    /// drawn.
    pub fn handle_message(&mut self, from: NodeId, msg: RaftMessage<V>, now: u64) -> (out: Vec<
        Outgoing<RaftMessage<V>>,
    >)
        requires
            old(self).wf(),
        ensures
            final(self).wf(),
            exists|timeout: u64| #[trigger]
                timeout_allowed(old(self).config, timeout) && (final(self)@, packets(out@)) == old(
                    self,
                )@.receive(from@, msg@, now, timeout),
            final(self).storage == old(self).storage,
    {
        let timeout: u64 = sample_election_timeout(&self.config);
        let out: Vec<Outgoing<RaftMessage<V>>> = self.handle_message_with(from, msg, now, timeout);
        assert(timeout_allowed(old(self).config, timeout));
        out
    }

    /// Lets time pass, with `timeout` as the election timeout of an election
    /// that starts. What a restart left committed and not applied is queued for
    /// delivery. Terms end with the last number there is.
    pub fn on_tick_with(&mut self, now: u64, timeout: u64) -> (out: Vec<Outgoing<RaftMessage<V>>>)
        requires
            old(self).wf(),
            old(self)@.election_due(now) ==> old(self).current_term < u64::MAX,
        ensures
            final(self).wf(),
            (final(self)@, packets(out@)) == old(self)@.tick(now, timeout),
            final(self).storage == old(self).storage,
    {
        let out: Vec<Outgoing<RaftMessage<V>>> = match self.role {
            Role::Leader => {
                let heartbeat_due: bool = match self.last_heartbeat_sent {
                    Some(t) => now.saturating_sub(t) >= self.config.heartbeat_interval,
                    None => true,
                };
                if heartbeat_due {
                    self.broadcast_heartbeat(now)
                } else {
                    no_messages()
                }
            },
            _ => {
                if now >= self.election_deadline {
                    self.start_election(now, timeout)
                } else {
                    no_messages()
                }
            },
        };
        assert((self@, packets(out@)) == old(self)@.lapse(now, timeout));
        self.reapply();
        out
    }

    /// Queues what is committed and was not yet applied for delivery.
    fn reapply(&mut self)
        requires
            old(self).wf(),
        ensures
            final(self).wf(),
            final(self)@ == old(self)@.reapplied(),
            final(self).storage == old(self).storage,
    {
        if let Some(target) = self.commit_index {
            let behind: bool = match self.last_applied {
                Some(applied) => applied < target,
                None => true,
            };
            if target < self.log.len() as u64 && behind {
                self.apply_committed_entries(target);
            }
        }
    }

    /// Lets time pass; an election that starts draws a new election timeout.
    pub fn on_tick(&mut self, now: u64) -> (out: Vec<Outgoing<RaftMessage<V>>>)
        requires
            old(self).wf(),
            old(self)@.election_due(now) ==> old(self).current_term < u64::MAX,
        ensures
            final(self).wf(),
            exists|timeout: u64| #[trigger]
                timeout_allowed(old(self).config, timeout) && (final(self)@, packets(out@)) == old(
                    self,
                )@.tick(now, timeout),
            final(self).storage == old(self).storage,
    {
        let timeout: u64 = sample_election_timeout(&self.config);
        let out: Vec<Outgoing<RaftMessage<V>>> = self.on_tick_with(now, timeout);
        assert(timeout_allowed(old(self).config, timeout));
        out
    }

    /// Takes the decisions that are ready to be delivered.
    pub fn take_decisions(&mut self) -> (taken: Vec<Decision<V>>)
        requires
            old(self).wf(),
        ensures
            final(self).wf(),
            decided(taken@) == old(self)@.pending_decisions,
            final(self)@ == (RaftState { pending_decisions: Seq::empty(), ..old(self)@ }),
            final(self).storage == old(self).storage,
    {
        let mut taken: Vec<Decision<V>> = Vec::new();
        std::mem::swap(&mut taken, &mut self.pending_decisions);
        assert(decided(self.pending_decisions@) =~= Seq::empty());
        taken
    }

    /// Takes the proposals that have to be routed again.
    pub fn take_lost_proposals(&mut self) -> (taken: Vec<V>)
        requires
            old(self).wf(),
        ensures
            final(self).wf(),
            views(taken@) == old(self)@.lost_proposals,
            final(self)@ == (RaftState { lost_proposals: Seq::empty(), ..old(self)@ }),
            final(self).storage == old(self).storage,
    {
        let mut taken: Vec<V> = Vec::new();
        std::mem::swap(&mut taken, &mut self.lost_proposals);
        assert(views(self.lost_proposals@) =~= Seq::empty());
        taken
    }

    /// Whether the node has no work of its own. A leader always has: it sends
    /// heartbeats.
    pub fn is_idle(&self) -> (idle: bool)
        ensures
            idle == self@.idle(),
    {
        self.log.len() == 0 && self.pending_proposals.len() == 0 && self.lost_proposals.len() == 0
            && self.role != Role::Leader
    }

    /// Creates a follower of term 0 whose first election is due `timeout` after
    /// `now`.
    pub fn new_with(
        node_id: NodeId,
        total_nodes: usize,
        config: RaftConfig,
        storage: S,
        now: u64,
        timeout: u64,
    ) -> (protocol: Self)
        ensures
            protocol.wf(),
            protocol@ == RaftState::<V::V>::initial(
                node_id@,
                total_nodes,
                config,
                deadline(now, timeout),
            ),
            protocol.storage == storage,
    {
        let protocol = RaftProtocol {
            node_id,
            total_nodes,
            config,
            current_term: 0,
            voted_for: None,
            log: Vec::new(),
            commit_index: None,
            last_applied: None,
            role: Role::Follower,
            leader: None,
            next_index: NodeMap::new(),
            match_index: NodeMap::new(),
            election_deadline: now.saturating_add(timeout),
            votes_received: NodeSet::new(),
            last_heartbeat_sent: None,
            pending_decisions: Vec::new(),
            pending_persist_term: false,
            pending_persist_voted_for: false,
            pending_persist_log_from: None,
            pending_truncate_from: None,
            pending_persist_commit_index: false,
            pending_proposals: Vec::new(),
            lost_proposals: Vec::new(),
            storage,
        };
        assert(protocol@ =~= RaftState::<V::V>::initial(
            node_id@,
            total_nodes,
            config,
            deadline(now, timeout),
        ));
        protocol
    }

    /// Creates a follower of term 0 with a drawn election timeout.
    pub fn new(
        node_id: NodeId,
        total_nodes: usize,
        config: RaftConfig,
        storage: S,
        now: u64,
    ) -> (protocol: Self)
        ensures
            protocol.wf(),
            exists|timeout: u64| #[trigger]
                timeout_allowed(config, timeout) && protocol@ == RaftState::<V::V>::initial(
                    node_id@,
                    total_nodes,
                    config,
                    deadline(now, timeout),
                ),
            protocol.storage == storage,
    {
        let timeout: u64 = sample_election_timeout(&config);
        assert(timeout_allowed(config, timeout));
        RaftProtocol::new_with(node_id, total_nodes, config, storage, now, timeout)
    }

    /// The protocol state, for tests and observability.
    pub fn peek_state(&self) -> (snapshot: ProtocolSnapshot)
        ensures
            snapshot.role == Some(node_role(self.role)),
            snapshot.term == self@.current_term,
            opt(snapshot.leader) == self@.leader,
            opt(snapshot.voted_for) == self@.voted_for,
            snapshot.log_len == self@.log.len(),
            snapshot.commit_index == self@.commit_index,
            snapshot.last_applied == self@.last_applied,
    {
        let role: NodeRole = match self.role {
            Role::Follower => NodeRole::Follower,
            Role::Candidate => NodeRole::Candidate,
            Role::Leader => NodeRole::Leader,
        };
        ProtocolSnapshot {
            role: Some(role),
            term: self.current_term,
            leader: copy_id(&self.leader),
            voted_for: copy_id(&self.voted_for),
            log_len: self.log.len() as u64,
            commit_index: self.commit_index,
            last_applied: self.last_applied,
        }
    }

    /// Restores persisted state at startup, with `timeout` as the election
    /// timeout.
    pub fn restore_state_with(
        &mut self,
        term: u64,
        voted_for: Option<NodeId>,
        log: Vec<LogEntry<V>>,
        decisions: Vec<(u64, V)>,
        persisted_commit_index: Option<u64>,
        now: u64,
        timeout: u64,
    )
        requires
            old(self).wf(),
        ensures
            final(self).wf(),
            final(self)@ == old(self)@.restored(
                term,
                opt(voted_for),
                entries_of(log@),
                slots_in(decisions@),
                persisted_commit_index,
                now,
                timeout,
            ),
            final(self).storage == old(self).storage,
    {
        self.current_term = term;
        self.voted_for = voted_for;
        self.log = log;
        let max_decided: Option<u64> = highest_slot(&decisions);
        let wanted: Option<u64> = match (persisted_commit_index, max_decided) {
            (Some(p), Some(d)) => if p >= d {
                Some(p)
            } else {
                Some(d)
            },
            (Some(p), None) => Some(p),
            (None, d) => d,
        };
        self.commit_index = match (wanted, self.last_log_index()) {
            (Some(c), Some(last)) => if c <= last {
                Some(c)
            } else {
                Some(last)
            },
            _ => None,
        };
        self.last_applied = max_decided;
        self.election_deadline = now.saturating_add(timeout);
        self.pending_persist_term = false;
        self.pending_persist_voted_for = false;
        self.pending_persist_log_from = None;
        self.pending_truncate_from = None;
        self.pending_persist_commit_index = false;
        self.pending_decisions = Vec::new();
        self.pending_proposals = Vec::new();
        self.lost_proposals = Vec::new();
        self.votes_received.clear();
        self.next_index.clear();
        self.match_index.clear();
        let own_vote: bool = match &self.voted_for {
            Some(v) => *v == self.node_id,
            None => false,
        };
        if self.total_nodes == 1 && self.current_term > 0 && own_vote {
            self.role = Role::Leader;
            self.leader = Some(self.node_id.clone());
            if let Some(last) = self.last_log_index() {
                self.match_index.insert(self.node_id.clone(), Some(last));
            }
        } else {
            self.role = Role::Follower;
            self.leader = None;
        }
        proof {
            let after = old(self)@.restored(
                term,
                opt(voted_for),
                entries_of(log@),
                slots_in(decisions@),
                persisted_commit_index,
                now,
                timeout,
            );
            assert(self@.match_index =~= after.match_index);
            assert(self@ =~= after);
        }
    }

    /// Restores persisted state at startup with a drawn election timeout.
    pub fn restore_state(
        &mut self,
        term: u64,
        voted_for: Option<NodeId>,
        log: Vec<LogEntry<V>>,
        decisions: Vec<(u64, V)>,
        persisted_commit_index: Option<u64>,
        now: u64,
    )
        requires
            old(self).wf(),
        ensures
            final(self).wf(),
            exists|timeout: u64| #[trigger]
                timeout_allowed(old(self).config, timeout) && final(self)@ == old(self)@.restored(
                    term,
                    opt(voted_for),
                    entries_of(log@),
                    slots_in(decisions@),
                    persisted_commit_index,
                    now,
                    timeout,
                ),
            final(self).storage == old(self).storage,
    {
        let timeout: u64 = sample_election_timeout(&self.config);
        assert(timeout_allowed(self.config, timeout));
        self.restore_state_with(
            term,
            voted_for,
            log,
            decisions,
            persisted_commit_index,
            now,
            timeout,
        );
    }

    /// Takes what has to be persisted; a second call in a row takes nothing.
    pub fn drain_persist_intent(&mut self) -> (intent: PersistIntent<V>)
        requires
            old(self).wf(),
        ensures
            final(self).wf(),
            intent@ == old(self)@.persist_intent(),
            final(self)@ == old(self)@.persisted(),
            final(self).storage == old(self).storage,
    {
        let term: Option<u64> = if self.pending_persist_term {
            Some(self.current_term)
        } else {
            None
        };
        let voted_for: Option<Option<NodeId>> = if self.pending_persist_voted_for {
            Some(copy_id(&self.voted_for))
        } else {
            None
        };
        let truncate_from: Option<u64> = self.pending_truncate_from.take();
        let append_from: Option<u64> = self.pending_persist_log_from.take();
        let commit_index: Option<Option<u64>> = if self.pending_persist_commit_index {
            Some(self.commit_index)
        } else {
            None
        };
        self.pending_persist_term = false;
        self.pending_persist_voted_for = false;
        self.pending_persist_commit_index = false;
        let log_snapshot: Vec<LogEntry<V>> = if append_from.is_some() {
            copy_entries(&self.log, 0)
        } else {
            Vec::new()
        };
        let intent = PersistIntent {
            term,
            voted_for,
            truncate_from,
            append_from,
            log_snapshot,
            commit_index,
        };
        proof {
            let all = old(self)@.log;
            assert(all.skip(0) =~= all);
            assert(append_from is None ==> entries_of(log_snapshot@) =~= Seq::empty());
            assert(intent@ =~= old(self)@.persist_intent());
        }
        intent
    }
}

/// The slots of a list of decisions.
pub open spec fn slots_in<V>(decisions: Seq<(u64, V)>) -> Set<u64> {
    Set::new(|slot: u64| exists|i: int| 0 <= i < decisions.len() && decisions[i].0 == slot)
}

/// The highest slot of a list of decisions.
pub fn highest_slot<V>(decisions: &Vec<(u64, V)>) -> (slot: Option<u64>)
    ensures
        slot == highest(slots_in(decisions@)),
{
    let mut best: Option<u64> = None;
    let mut i: usize = 0;
    while i < decisions.len()
        invariant
            i <= decisions.len(),
            best is None ==> i == 0,
            best matches Some(b) ==> exists|j: int| 0 <= j < i && decisions[j].0 == b,
            forall|j: int|
                0 <= j < i ==> best is Some && (#[trigger] decisions[j]).0 <= best->0,
        decreases decisions.len() - i,
    {
        let slot: u64 = decisions[i].0;
        assert(decisions[i as int].0 == slot);
        let higher: bool = match best {
            Some(b) => slot > b,
            None => true,
        };
        if higher {
            best = Some(slot);
        }
        i += 1;
    }
    proof {
        let slots = slots_in(decisions@);
        match best {
            Some(b) => {
                assert(is_highest(slots, b)) by {
                    assert(slots.contains(b));
                }
                let h = highest(slots)->0;
                assert(is_highest(slots, h));
                assert(h == b);
            },
            None => {
                if exists|m: u64| is_highest(slots, m) {
                    let m = choose|m: u64| is_highest(slots, m);
                    assert(slots.contains(m));
                }
            },
        }
    }
    best
}

/// The role of a node as it is reported.
pub open spec fn node_role(role: Role) -> NodeRole {
    match role {
        Role::Follower => NodeRole::Follower,
        Role::Candidate => NodeRole::Candidate,
        Role::Leader => NodeRole::Leader,
    }
}

/// A Raft node's state as it is reported: [`NodeState`](crate::node::NodeState)
/// without the node's identity and algorithm.
pub struct ProtocolSnapshot {
    pub role: Option<NodeRole>,
    pub term: u64,
    pub leader: Option<NodeId>,
    pub voted_for: Option<NodeId>,
    pub log_len: u64,
    pub commit_index: Option<u64>,
    pub last_applied: Option<u64>,
}

/// Pending persistence work, to be written before any message is sent.
pub struct PersistIntent<V> {
    pub term: Option<u64>,
    pub voted_for: Option<Option<NodeId>>,
    pub truncate_from: Option<u64>,
    pub append_from: Option<u64>,
    pub log_snapshot: Vec<LogEntry<V>>,
    /// `Some(value)` when the commit index has changed and needs to be persisted.
    pub commit_index: Option<Option<u64>>,
}

impl<V: Value> View for PersistIntent<V> {
    type V = Persisted<V::V>;

    open spec fn view(&self) -> Persisted<V::V> {
        Persisted {
            term: self.term,
            voted_for: match self.voted_for {
                Some(v) => Some(opt(v)),
                None => None,
            },
            truncate_from: self.truncate_from,
            append_from: self.append_from,
            log_snapshot: entries_of(self.log_snapshot@),
            commit_index: self.commit_index,
        }
    }
}

impl<V: Value, S: RaftStorage<V>> RaftProtocol<V, S> {
    /// Loads the persisted state and restores it. Where a load fails, its error
    /// is returned and the state stays as it was; there is no other failure.
    pub fn recover(&mut self, now: u64) -> (r: Result<(), StorageError>)
        requires
            old(self).wf(),
        ensures
            final(self).wf(),
            final(self).storage == old(self).storage,
            r is Err ==> final(self)@ == old(self)@,
            r matches Err(e) ==> raft_load_fails::<V, S>(old(self).storage, e),
            r is Ok ==> ({
                let stored = old(self).storage.stored();
                exists|timeout: u64| #[trigger]
                    timeout_allowed(old(self).config, timeout) && final(self)@ == old(
                        self,
                    )@.restored(
                        stored.term,
                        stored.voted_for,
                        stored.log,
                        stored.decisions.dom(),
                        stored.commit_index,
                        now,
                        timeout,
                    )
            }),
    {
        let term: u64 = match self.storage.load_term() {
            Ok(term) => term,
            Err(e) => return Err(e),
        };
        let voted_for: Option<NodeId> = match self.storage.load_voted_for() {
            Ok(voted_for) => voted_for,
            Err(e) => return Err(e),
        };
        let log: Vec<LogEntry<V>> = match self.storage.load_log() {
            Ok(log) => log,
            Err(e) => return Err(e),
        };
        let decisions: Vec<(u64, V)> = match self.storage.load_decisions() {
            Ok(decisions) => decisions,
            Err(e) => return Err(e),
        };
        let commit_index: Option<u64> = match self.storage.load_commit_index() {
            Ok(commit_index) => commit_index,
            Err(e) => return Err(e),
        };
        assert(slots_in(decisions@) =~= self.storage.stored().decisions.dom()) by {
            assert forall|slot: u64| slots_in(decisions@).contains(slot) implies
                self.storage.stored().decisions.dom().contains(slot) by {
                let i = choose|i: int| 0 <= i < decisions.len() && decisions[i].0 == slot;
                assert(self.storage.stored().decisions.contains_key(decisions[i].0));
            }
            assert forall|slot: u64| self.storage.stored().decisions.dom().contains(slot) implies
                slots_in(decisions@).contains(slot) by {
                assert(self.storage.stored().decisions.contains_key(slot));
            }
        }
        self.restore_state(term, voted_for, log, decisions, commit_index, now);
        Ok(())
    }

    /// Writes what has to be persisted, in the order term, vote, truncation,
    /// entries, commit index: conflicting entries are gone before new ones are
    /// appended, and the commit index points at entries already durable. The only
    /// failure is that of a write; the writes before it are done then, and those
    /// after it are not.
    pub fn flush_persist(&mut self) -> (r: Result<(), StorageError>)
        requires
            old(self).wf(),
            old(self).pending_persist_log_from matches Some(from) ==> from <= old(self).log.len(),
        ensures
            final(self).wf(),
            final(self)@ == old(self)@.persisted(),
            r is Ok ==> final(self).storage.stored() == written(
                old(self).storage.stored(),
                old(self)@.persist_intent(),
            ),
            old(self)@.clean() ==> r is Ok,
            r matches Err(e) ==> raft_flush_fails::<V, S>(e),
            r is Err ==> cut_short(
                old(self).storage.stored(),
                old(self)@.persist_intent(),
                final(self).storage.stored(),
            ),
            r is Err ==> final(self).storage.stored().commit_index == old(
                self,
            ).storage.stored().commit_index || final(self).storage.stored().log == written(
                old(self).storage.stored(),
                old(self)@.persist_intent(),
            ).log,
    {
        let intent: PersistIntent<V> = self.drain_persist_intent();
        let ghost plan = intent@;
        let ghost stored = self.storage.stored();
        if let Some(term) = intent.term {
            match self.storage.save_term(term) {
                Ok(_) => {},
                Err(e) => {
                    assert(stops_after(stored, plan, 0, self.storage.stored()));
                    return Err(e);
                },
            }
        }
        if let Some(voted_for) = intent.voted_for {
            match self.storage.save_voted_for(voted_for) {
                Ok(_) => {},
                Err(e) => {
                    assert(stops_after(stored, plan, 1, self.storage.stored()));
                    return Err(e);
                },
            }
        }
        if let Some(index) = intent.truncate_from {
            match self.storage.truncate_log_from(index) {
                Ok(_) => {},
                Err(e) => {
                    assert(stops_after(stored, plan, 2, self.storage.stored()));
                    return Err(e);
                },
            }
        }
        if let Some(index) = intent.append_from {
            let entries: Vec<LogEntry<V>> = copy_entries(&intent.log_snapshot, index as usize);
            match self.storage.append_log(entries) {
                Ok(_) => {},
                Err(e) => {
                    assert(stops_after(stored, plan, 3, self.storage.stored()));
                    return Err(e);
                },
            }
        }
        if let Some(commit_index) = intent.commit_index {
            match self.storage.save_commit_index(commit_index) {
                Ok(_) => {},
                Err(e) => {
                    assert(stops_after(stored, plan, 4, self.storage.stored()));
                    return Err(e);
                },
            }
        }
        assert(self.storage.stored() =~= written(stored, plan));
        Ok(())
    }

    /// Takes the decisions that are ready to be delivered, once each is saved. The
    /// only failure is that of a save; the saves before it are done then, and those
    /// after it are not.
    pub fn drain_decisions(&mut self) -> (r: Result<Vec<Decision<V>>, StorageError>)
        requires
            old(self).wf(),
        ensures
            final(self).wf(),
            final(self)@ == (RaftState { pending_decisions: Seq::empty(), ..old(self)@ }),
            r matches Ok(taken) ==> decided(taken@) == old(self)@.pending_decisions,
            r is Ok ==> final(self).storage.stored() == (RaftStored {
                decisions: saved(
                    old(self).storage.stored().decisions,
                    old(self)@.pending_decisions,
                ),
                ..old(self).storage.stored()
            }),
            old(self)@.pending_decisions.len() == 0 ==> r is Ok,
            r matches Err(e) ==> raft_save_fails::<V, S>(e),
            r is Err ==> saving_failed(
                old(self).storage.stored(),
                old(self)@.pending_decisions,
                final(self).storage.stored(),
            ),
    {
        let decisions: Vec<Decision<V>> = self.take_decisions();
        let ghost all = decided(decisions@);
        let ghost before = self.storage.stored();
        let mut i: usize = 0;
        while i < decisions.len()
            invariant
                i <= decisions.len(),
                all == decided(decisions@),
                all == old(self)@.pending_decisions,
                before == old(self).storage.stored(),
                self.wf(),
                self@ == (RaftState { pending_decisions: Seq::empty(), ..old(self)@ }),
                self.storage.stored() == (RaftStored {
                    decisions: saved(before.decisions, all.take(i as int)),
                    ..before
                }),
            decreases decisions.len() - i,
        {
            let slot: u64 = decisions[i].slot;
            let value: V = decisions[i].value.copied();
            assert(all[i as int] == (slot, value@));
            match self.storage.save_decision(slot, value) {
                Ok(_) => {},
                Err(e) => {
                    assert(saving_stops(before, all, i as int, self.storage.stored()));
                    return Err(e);
                },
            }
            proof {
                let more = all.take(i + 1);
                assert(more.drop_last() =~= all.take(i as int));
                assert(more.last() == all[i as int]);
            }
            i += 1;
        }
        assert(all.take(i as int) =~= all);
        Ok(decisions)
    }
}

} // verus!
