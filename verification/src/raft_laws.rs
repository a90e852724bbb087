//! What every step of a Raft node keeps.
use crate::config::NodeName;
use crate::message::{Entry, RaftMsg};
use crate::raft_model::{
    after, deadline, decisions_between, forwards, held, highest, holds_prev, placed, term_of, to,
    verified_index, written, RaftState, Role,
};
use crate::storage::{truncated, RaftStored};
use vstd::prelude::*;

verus! {

/// One step of a node: a message, a tick or a proposal.
pub enum Event<T> {
    Receive { from: NodeName, message: RaftMsg<T>, now: u64, timeout: u64 },
    Tick { now: u64, timeout: u64 },
    Propose { value: T, now: u64 },
}

impl<T> RaftState<T> {
    /// The state after an event.
    pub open spec fn after_event(self, event: Event<T>) -> RaftState<T> {
        match event {
            Event::Receive { from, message, now, timeout } => self.receive(
                from,
                message,
                now,
                timeout,
            ).0,
            Event::Tick { now, timeout } => self.tick(now, timeout).0,
            Event::Propose { value, now } => self.propose(value, now).0,
        }
    }

    /// Whether an event is possible: an election needs a term behind the
    /// current one.
    pub open spec fn allows(self, event: Event<T>) -> bool {
        match event {
            Event::Tick { now, .. } => self.election_due(now) ==> self.current_term < u64::MAX,
            _ => true,
        }
    }
}

/// Whether an optional index has not gone back.
pub open spec fn not_before(old_index: Option<u64>, new_index: Option<u64>) -> bool {
    match old_index {
        None => true,
        Some(o) => new_index is Some && new_index->0 >= o,
    }
}

/// Whether a log holds the `j`-th of `entries` where they start at `start`.
pub open spec fn held_at<T>(log: Seq<Entry<T>>, start: int, entries: Seq<Entry<T>>, j: int) -> bool {
    start + j < log.len() && log[start + j].term == entries[j].term
}

/// The entries counted as held are, and the one behind them is not.
pub proof fn lemma_held_bounds<T>(log: Seq<Entry<T>>, start: int, entries: Seq<Entry<T>>, i: int)
    requires
        0 <= i <= entries.len(),
        0 <= start,
    ensures
        i <= held(log, start, entries, i) <= entries.len(),
        forall|j: int|
            i <= j < held(log, start, entries, i) ==> #[trigger] held_at(log, start, entries, j),
        held(log, start, entries, i) < entries.len() ==> !held_at(
            log,
            start,
            entries,
            held(log, start, entries, i),
        ),
    decreases entries.len() - i,
{
    if i < entries.len() && held_at(log, start, entries, i) {
        lemma_held_bounds(log, start, entries, i + 1);
    }
}

/// Placing entries touches only the log and the marks for its persistence.
pub proof fn lemma_placing_core<T>(
    s: RaftState<T>,
    term: u64,
    prev: Option<u64>,
    entries: Seq<Entry<T>>,
)
    ensures
        ({
            let t = s.placing(term, prev, entries);
            t == (RaftState {
                log: t.log,
                pending_truncate_from: t.pending_truncate_from,
                pending_persist_log_from: t.pending_persist_log_from,
                ..s
            })
        }),
{
}

/// Learning the leader's commit index touches only what is committed.
pub proof fn lemma_learn_core<T>(s: RaftState<T>, leader_commit: Option<u64>, verified: Option<u64>)
    ensures
        ({
            let t = s.learn_commit(leader_commit, verified);
            &&& t == (RaftState {
                commit_index: t.commit_index,
                pending_persist_commit_index: t.pending_persist_commit_index,
                pending_decisions: t.pending_decisions,
                last_applied: t.last_applied,
                ..s
            })
            &&& not_before(s.commit_index, t.commit_index)
        }),
{
}

/// What every step keeps: the term, a vote within its term, the log of a leader
/// within its term, and the commit index.
pub open spec fn keeps<T>(s: RaftState<T>, t: RaftState<T>) -> bool {
    &&& t.current_term >= s.current_term
    &&& t.current_term == s.current_term && s.voted_for is Some ==> t.voted_for == s.voted_for
    &&& not_before(s.commit_index, t.commit_index)
    &&& t.current_term == s.current_term && s.role == Role::Leader ==> {
        &&& t.role == Role::Leader
        &&& s.log.len() <= t.log.len()
        &&& t.log.take(s.log.len() as int) == s.log
    }
    &&& t.role == Role::Leader && t.commit_index != s.commit_index ==> commits_own_term(t)
}

/// Whether the commit index stands at an entry of the node's own term.
pub open spec fn commits_own_term<T>(s: RaftState<T>) -> bool {
    &&& s.commit_index is Some
    &&& s.commit_index->0 < s.log.len()
    &&& s.log[s.commit_index->0 as int].term == s.current_term
}

proof fn lemma_extended_keeps<T>(s: RaftState<T>, values: Seq<T>)
    requires
        s.role == Role::Leader,
    ensures
        ({
            let t = s.extended(values).advance_commit();
            &&& keeps(s, t)
            &&& t.current_term == s.current_term
            &&& t.voted_for == s.voted_for
            &&& t.role == Role::Leader
            &&& t.log == s.extended(values).log
            &&& t.log.take(s.log.len() as int) == s.log
        }),
{
    let t = s.extended(values);
    assert(t.log.take(s.log.len() as int) =~= s.log);
    assert(t.advance_commit().log == t.log);
}

proof fn lemma_lead_keeps<T>(s: RaftState<T>, now: u64)
    requires
        s.role == Role::Candidate,
    ensures
        keeps(s, s.lead(now).0),
        s.lead(now).0.current_term == s.current_term,
        s.lead(now).0.voted_for == s.voted_for,
{
    let fresh = RaftState {
        role: Role::Leader,
        leader: Some(s.node_id),
        next_index: Map::empty(),
        match_index: Map::empty(),
        pending_proposals: Seq::empty(),
        ..s
    };
    lemma_extended_keeps(fresh, s.pending_proposals);
}

proof fn lemma_propose_keeps<T>(s: RaftState<T>, value: T, now: u64)
    ensures
        keeps(s, s.propose(value, now).0),
{
    if s.role == Role::Leader {
        lemma_extended_keeps(s, seq![value]);
    } else {
        assert(s.log.take(s.log.len() as int) =~= s.log);
    }
}

/// Taking in an append keeps the term, the vote and what is committed.
proof fn lemma_accept_keeps<T>(
    c: RaftState<T>,
    term: u64,
    leader: NodeName,
    prev: Option<u64>,
    entries: Seq<Entry<T>>,
    leader_commit: Option<u64>,
)
    ensures
        ({
            let t = c.accept_append(term, leader, prev, entries, leader_commit).0;
            &&& t.current_term == c.current_term
            &&& t.voted_for == c.voted_for
            &&& t.role == c.role
            &&& not_before(c.commit_index, t.commit_index)
        }),
{
    lemma_placing_core(c, term, prev, entries);
    lemma_learn_core(
        c.placing(term, prev, entries),
        leader_commit,
        verified_index(prev, entries.len() as int),
    );
}

proof fn lemma_append_keeps<T>(
    s: RaftState<T>,
    term: u64,
    leader: NodeName,
    prev: Option<u64>,
    prev_term: u64,
    entries: Seq<Entry<T>>,
    leader_commit: Option<u64>,
    now: u64,
    timeout: u64,
)
    requires
        term <= s.current_term,
    ensures
        keeps(
            s,
            s.on_append_entries(
                term,
                leader,
                prev,
                prev_term,
                entries,
                leader_commit,
                now,
                timeout,
            ).0,
        ),
{
    assert(s.log.take(s.log.len() as int) =~= s.log);
    let t = s.on_append_entries(
        term,
        leader,
        prev,
        prev_term,
        entries,
        leader_commit,
        now,
        timeout,
    ).0;
    if term < s.current_term || (term == s.current_term && s.role == Role::Leader) {
        assert(t == s);
    } else {
        let c = s.following(leader, now, timeout);
        if !holds_prev(c.log, prev, prev_term) {
            assert(t == c);
        } else {
            assert(t == c.accept_append(term, leader, prev, entries, leader_commit).0);
            lemma_accept_keeps(c, term, leader, prev, entries, leader_commit);
        }
    }
}

proof fn lemma_votes_keep<T>(
    s: RaftState<T>,
    from: NodeName,
    term: u64,
    vote_granted: bool,
    now: u64,
)
    ensures
        keeps(s, s.on_vote_response(from, term, vote_granted, now).0),
{
    assert(s.log.take(s.log.len() as int) =~= s.log);
    let d = RaftState { votes_received: s.votes_received.insert(from), ..s };
    if s.role == Role::Candidate {
        lemma_lead_keeps(d, now);
    }
}

proof fn lemma_acks_keep<T>(
    s: RaftState<T>,
    from: NodeName,
    term: u64,
    success: bool,
    match_index: Option<u64>,
    conflict_term: Option<u64>,
    conflict_index: Option<u64>,
)
    ensures
        keeps(
            s,
            s.on_append_response(
                from,
                term,
                success,
                match_index,
                conflict_term,
                conflict_index,
            ).0,
        ),
{
    assert(s.log.take(s.log.len() as int) =~= s.log);
    if match_index is Some {
        let d = RaftState {
            match_index: s.match_index.insert(from, match_index),
            next_index: s.next_index.insert(from, (match_index->0 + 1) as u64),
            ..s
        };
        assert(d.advance_commit().log == d.log);
        assert(keeps(s, d.advance_commit()));
    }
}

proof fn lemma_vote_keeps<T>(
    s: RaftState<T>,
    term: u64,
    candidate: NodeName,
    last_log_index: Option<u64>,
    last_log_term: u64,
    now: u64,
    timeout: u64,
)
    ensures
        keeps(
            s,
            s.on_request_vote(term, candidate, last_log_index, last_log_term, now, timeout).0,
        ),
{
    assert(s.log.take(s.log.len() as int) =~= s.log);
}

proof fn lemma_caught_up_keeps<T>(s: RaftState<T>, message: RaftMsg<T>, now: u64, timeout: u64)
    ensures
        keeps(s, s.caught_up(message, now, timeout)),
        s.caught_up(message, now, timeout).commit_index == s.commit_index,
        term_of(message) is Some ==> term_of(message)->0 <= s.caught_up(
            message,
            now,
            timeout,
        ).current_term,
{
    assert(s.log.take(s.log.len() as int) =~= s.log);
}

proof fn lemma_keeps_chain<T>(s: RaftState<T>, c: RaftState<T>, t: RaftState<T>)
    requires
        keeps(s, c),
        c.commit_index == s.commit_index,
        keeps(c, t),
    ensures
        keeps(s, t),
{
    if t.current_term == s.current_term && s.role == Role::Leader {
        assert(t.log.take(s.log.len() as int) =~= c.log.take(s.log.len() as int));
    }
}

proof fn lemma_receive_keeps<T>(
    s: RaftState<T>,
    from: NodeName,
    message: RaftMsg<T>,
    now: u64,
    timeout: u64,
)
    ensures
        keeps(s, s.receive(from, message, now, timeout).0),
{
    let c = s.caught_up(message, now, timeout);
    lemma_caught_up_keeps(s, message, now, timeout);
    match message {
        RaftMsg::RequestVote { term, candidate, last_log_index, last_log_term } => {
            lemma_vote_keeps(c, term, candidate, last_log_index, last_log_term, now, timeout);
        },
        RaftMsg::RequestVoteResponse { term, vote_granted } => {
            lemma_votes_keep(c, from, term, vote_granted, now);
        },
        RaftMsg::AppendEntries {
            term,
            leader,
            prev_log_index,
            prev_log_term,
            entries,
            leader_commit,
        } => {
            lemma_append_keeps(
                c,
                term,
                leader,
                prev_log_index,
                prev_log_term,
                entries,
                leader_commit,
                now,
                timeout,
            );
        },
        RaftMsg::AppendEntriesResponse {
            term,
            success,
            match_index,
            conflict_term,
            conflict_index,
        } => {
            lemma_acks_keep(c, from, term, success, match_index, conflict_term, conflict_index);
        },
        RaftMsg::Forward { value, hops } => {
            lemma_propose_keeps(c, value, now);
            assert(c.log.take(c.log.len() as int) =~= c.log);
        },
    }
    lemma_keeps_chain(s, c, s.receive(from, message, now, timeout).0);
}

/// Every event keeps what `keeps` names.
pub proof fn every_event_keeps<T>(s: RaftState<T>, event: Event<T>)
    requires
        s.allows(event),
    ensures
        keeps(s, s.after_event(event)),
{
    match event {
        Event::Receive { from, message, now, timeout } => {
            lemma_receive_keeps(s, from, message, now, timeout);
        },
        Event::Tick { now, timeout } => {
            assert(s.log.take(s.log.len() as int) =~= s.log);
            if s.election_due(now) {
                lemma_lead_keeps(s.candidacy(now, timeout), now);
            }
        },
        Event::Propose { value, now } => {
            lemma_propose_keeps(s, value, now);
        },
    }
}

/// Within a term a vote is given to a candidate that asks for it, and no other
/// way.
pub proof fn lemma_vote_given<T>(s: RaftState<T>, event: Event<T>)
    requires
        s.allows(event),
        s.after_event(event).current_term == s.current_term,
        s.after_event(event).voted_for != s.voted_for,
    ensures
        event matches Event::Receive { message, .. } && message matches RaftMsg::RequestVote {
            candidate,
            ..
        } && s.after_event(event).voted_for == Some(candidate),
{
    match event {
        Event::Receive { from, message, now, timeout } => {
            let c = s.caught_up(message, now, timeout);
            lemma_caught_up_keeps(s, message, now, timeout);
            match message {
                RaftMsg::AppendEntries {
                    term,
                    leader,
                    prev_log_index,
                    entries,
                    leader_commit,
                    ..
                } => {
                    let d = c.following(leader, now, timeout);
                    lemma_accept_keeps(d, term, leader, prev_log_index, entries, leader_commit);
                },
                _ => {},
            }
        },
        Event::Tick { .. } => {},
        Event::Propose { .. } => {},
    }
}

/// The term never goes back.
pub proof fn term_never_goes_back<T>(s: RaftState<T>, event: Event<T>)
    requires
        s.allows(event),
    ensures
        s.after_event(event).current_term >= s.current_term,
{
    every_event_keeps(s, event);
}

/// Within a term a vote, once cast, stays.
pub proof fn one_vote_per_term<T>(s: RaftState<T>, event: Event<T>)
    requires
        s.allows(event),
        s.after_event(event).current_term == s.current_term,
        s.voted_for is Some,
    ensures
        s.after_event(event).voted_for == s.voted_for,
{
    every_event_keeps(s, event);
}

/// Within its term a leader stays leader and only appends to its log.
pub proof fn leader_only_appends<T>(s: RaftState<T>, event: Event<T>)
    requires
        s.allows(event),
        s.role == Role::Leader,
        s.after_event(event).current_term == s.current_term,
    ensures
        s.after_event(event).role == Role::Leader,
        s.log.len() <= s.after_event(event).log.len(),
        s.after_event(event).log.take(s.log.len() as int) == s.log,
{
    every_event_keeps(s, event);
}

/// The commit index never goes back.
pub proof fn commit_never_goes_back<T>(s: RaftState<T>, event: Event<T>)
    requires
        s.allows(event),
    ensures
        not_before(s.commit_index, s.after_event(event).commit_index),
{
    every_event_keeps(s, event);
}

/// A leader commits by counting only entries of its own term: the commit index
/// of a leader moves only to such an entry.
pub proof fn leader_commits_own_term<T>(s: RaftState<T>, event: Event<T>)
    requires
        s.allows(event),
        s.after_event(event).role == Role::Leader,
        s.after_event(event).commit_index != s.commit_index,
    ensures
        commits_own_term(s.after_event(event)),
{
    every_event_keeps(s, event);
}

/// What was taken is gone: after the persistence intent was taken there is
/// nothing to persist.
pub proof fn intent_is_taken_once<T>(s: RaftState<T>)
    ensures
        s.persisted().clean(),
        s.persisted().persist_intent().term is None,
        s.persisted().persist_intent().voted_for is None,
        s.persisted().persist_intent().truncate_from is None,
        s.persisted().persist_intent().append_from is None,
        s.persisted().persist_intent().commit_index is None,
{
}

/// Whether a storage lacks at most the term and the vote of a node, and those
/// are marked for persistence.
spec fn nearly_mirrored<T>(s: RaftState<T>, stored: RaftStored<T>) -> bool {
    &&& s.pending_persist_log_from is None
    &&& s.pending_truncate_from is None
    &&& !s.pending_persist_commit_index
    &&& stored.log == s.log
    &&& stored.commit_index == s.commit_index
    &&& s.pending_persist_term || stored.term == s.current_term
    &&& s.pending_persist_voted_for || stored.voted_for == s.voted_for
    &&& s.log.len() <= u64::MAX
}

/// Whether writing what is marked brings the storage up to the node.
spec fn flushes<T>(s: RaftState<T>, stored: RaftStored<T>) -> bool {
    &&& s.mirrored_by(written(stored, s.persist_intent()))
    &&& s.pending_persist_log_from matches Some(from) ==> from <= s.log.len()
}

proof fn lemma_extended_flushes<T>(s: RaftState<T>, stored: RaftStored<T>, values: Seq<T>)
    requires
        nearly_mirrored(s, stored),
    ensures
        flushes(s.extended(values), stored),
        flushes(s.extended(values).advance_commit(), stored),
{
    let t = s.extended(values);
    assert(t.log.skip(s.log.len() as int) =~= values.map_values(
        |v: T| Entry { term: s.current_term, value: v },
    ));
    assert(t.log =~= s.log + t.log.skip(s.log.len() as int));
    assert(t.advance_commit().log == t.log);
}

proof fn lemma_placing_flushes<T>(
    s: RaftState<T>,
    stored: RaftStored<T>,
    term: u64,
    prev: Option<u64>,
    entries: Seq<Entry<T>>,
)
    requires
        nearly_mirrored(s, stored),
        prev matches Some(p) ==> p < s.log.len(),
    ensures
        flushes(s.placing(term, prev, entries), stored),
        !s.placing(term, prev, entries).pending_persist_commit_index,
{
    let start = after(prev);
    lemma_held_bounds(s.log, start, entries, 0);
    let k = held(s.log, start, entries, 0);
    let t = s.placing(term, prev, entries);
    let at = start + k;
    if k > 0 {
        assert(held_at(s.log, start, entries, k - 1));
    }
    assert(at <= s.log.len());
    if k < entries.len() {
        let kept = if at < s.log.len() {
            truncated(s.log, at as u64)
        } else {
            s.log
        };
        assert(kept =~= s.log.take(at));
        assert(t.log.skip(at) =~= entries.skip(k));
        assert(kept + t.log.skip(at) =~= t.log);
    } else if t != s {
        assert(entries.skip(k) =~= Seq::empty());
        assert(t.log =~= s.log.take(at));
        assert(truncated(s.log, at as u64) =~= t.log);
    }
}

/// Only an append takes entries off a log: those from the first on that differs
/// from the leader's, or all that lie behind the leader's.
pub proof fn lemma_truncation<T>(s: RaftState<T>, event: Event<T>, at: u64)
    requires
        s.clean(),
        s.log.len() <= u64::MAX,
        s.after_event(event).pending_truncate_from == Some(at),
    ensures
        event matches Event::Receive { message, .. } && message is AppendEntries,
        ({
            let t = s.after_event(event);
            &&& at < s.log.len()
            &&& at <= t.log.len()
            &&& t.log.take(at as int) == s.log.take(at as int)
            &&& t.log.len() == at || t.log[at as int].term != s.log[at as int].term
        }),
{
    let t = s.after_event(event);
    match event {
        Event::Receive { from, message, now, timeout } => {
            let c = s.caught_up(message, now, timeout);
            match message {
                RaftMsg::AppendEntries {
                    term,
                    leader,
                    prev_log_index,
                    prev_log_term,
                    entries,
                    leader_commit,
                } => {
                    let d = c.following(leader, now, timeout);
                    assert(d.log == s.log);
                    let start = after(prev_log_index);
                    let k = held(d.log, start, entries, 0);
                    lemma_held_bounds(d.log, start, entries, 0);
                    if k > 0 {
                        assert(held_at(d.log, start, entries, k - 1));
                    }
                    lemma_placing_core(d, term, prev_log_index, entries);
                    lemma_learn_core(
                        d.placing(term, prev_log_index, entries),
                        leader_commit,
                        verified_index(prev_log_index, entries.len() as int),
                    );
                    assert(holds_prev(d.log, prev_log_index, prev_log_term));
                    assert(t.log == placed(d.log, start, entries));
                    assert(t.log.take(at as int) =~= s.log.take(at as int));
                },
                _ => {},
            }
        },
        _ => {},
    }
}

/// Durability before send: a storage that mirrors a node, and into which all
/// that an event marked is written, mirrors the node again.
pub proof fn flushing_keeps_the_mirror<T>(s: RaftState<T>, stored: RaftStored<T>, event: Event<T>)
    requires
        s.allows(event),
        s.clean(),
        s.mirrored_by(stored),
        s.log.len() <= u64::MAX,
        s.after_event(event).log.len() <= u64::MAX,
    ensures
        ({
            let t = s.after_event(event);
            &&& t.persisted().mirrored_by(written(stored, t.persist_intent()))
            &&& t.persisted().clean()
            &&& t.pending_persist_log_from matches Some(from) ==> from <= t.log.len()
        }),
{
    match event {
        Event::Receive { from, message, now, timeout } => {
            let c = s.caught_up(message, now, timeout);
            assert(nearly_mirrored(c, stored));
            match message {
                RaftMsg::RequestVoteResponse { term, vote_granted } => {
                    let d = RaftState { votes_received: c.votes_received.insert(from), ..c };
                    lemma_lead_flushes(d, stored, now);
                },
                RaftMsg::AppendEntries {
                    term,
                    leader,
                    prev_log_index,
                    prev_log_term,
                    entries,
                    leader_commit,
                } => {
                    let d = c.following(leader, now, timeout);
                    if !(term < c.current_term || (term == c.current_term && c.role
                        == Role::Leader)) && holds_prev(d.log, prev_log_index, prev_log_term) {
                        lemma_placing_flushes(d, stored, term, prev_log_index, entries);
                    }
                },
                RaftMsg::Forward { value, hops } => {
                    lemma_extended_flushes(c, stored, seq![value]);
                },
                _ => {},
            }
        },
        Event::Tick { now, timeout } => {
            let d = s.candidacy(now, timeout);
            lemma_lead_flushes(d, stored, now);
        },
        Event::Propose { value, now } => {
            lemma_extended_flushes(s, stored, seq![value]);
        },
    }
}

/// A crash in the midst of a flush takes nothing back: after any number of the
/// writes that an event marked, the stored term is not below the old one, a vote
/// given in it stands, the log is the old one or the beginning of the new one,
/// and the commit index is the old one unless the new log is there.
pub proof fn a_cut_flush_takes_nothing_back<T>(
    s: RaftState<T>,
    stored: RaftStored<T>,
    event: Event<T>,
    count: int,
)
    requires
        s.allows(event),
        s.clean(),
        s.mirrored_by(stored),
        s.log.len() <= u64::MAX,
        s.after_event(event).log.len() <= u64::MAX,
        0 <= count <= 5,
    ensures
        ({
            let t = s.after_event(event);
            let p = written(stored, t.persist_intent().first(count));
            &&& stored.term <= p.term <= t.current_term
            &&& p.term == stored.term && stored.voted_for is Some ==> p.voted_for
                == stored.voted_for
            &&& p.log == s.log || p.log.is_prefix_of(t.log)
            &&& p.commit_index == stored.commit_index || (p.commit_index == t.commit_index && p.log
                == t.log)
            &&& p.decisions == stored.decisions
        }),
{
    let t = s.after_event(event);
    let intent = t.persist_intent();
    let p = written(stored, intent.first(count));
    every_event_keeps(s, event);
    flushing_keeps_the_mirror(s, stored, event);
    let kept = match intent.truncate_from {
        Some(i) => truncated(stored.log, i),
        None => stored.log,
    };
    assert(written(stored, intent).log == t.log);
    if count == 3 {
        assert(p.log == kept);
        assert(t.log.take(kept.len() as int) =~= kept);
        assert(kept.is_prefix_of(t.log));
    } else if count > 3 {
        assert(p.log == t.log);
        assert(t.log.take(t.log.len() as int) =~= t.log);
    }
}

proof fn lemma_lead_flushes<T>(s: RaftState<T>, stored: RaftStored<T>, now: u64)
    requires
        nearly_mirrored(s, stored),
    ensures
        flushes(s.lead(now).0, stored),
{
    let fresh = RaftState {
        role: Role::Leader,
        leader: Some(s.node_id),
        next_index: Map::empty(),
        match_index: Map::empty(),
        pending_proposals: Seq::empty(),
        ..s
    };
    lemma_extended_flushes(fresh, stored, s.pending_proposals);
}

/// Nothing committed is left undelivered by a restart: the first tick after it
/// queues every entry up to the commit index that lies behind the highest
/// decided slot.
pub proof fn restarts_redeliver<T>(
    s: RaftState<T>,
    term: u64,
    voted_for: Option<NodeName>,
    log: Seq<Entry<T>>,
    decided: Set<u64>,
    persisted_commit_index: Option<u64>,
    now: u64,
    timeout: u64,
    later: u64,
    next_timeout: u64,
    slot: u64,
)
    requires
        log.len() <= u64::MAX,
        ({
            let t = s.restored(
                term,
                voted_for,
                log,
                decided,
                persisted_commit_index,
                now,
                timeout,
            );
            t.commit_index matches Some(c) && after(highest(decided)) <= slot <= c
        }),
    ensures
        ({
            let t = s.restored(
                term,
                voted_for,
                log,
                decided,
                persisted_commit_index,
                now,
                timeout,
            );
            t.tick(later, next_timeout).0.pending_decisions.contains(
                (slot, log[slot as int].value),
            )
        }),
{
    let t = s.restored(term, voted_for, log, decided, persisted_commit_index, now, timeout);
    let u = t.lapse(later, next_timeout).0;
    let c = t.commit_index->0;
    assert(u.commit_index == t.commit_index && u.last_applied == t.last_applied && u.log == log
        && u.pending_decisions == t.pending_decisions);
    let new = decisions_between(log, highest(decided), c);
    let k = slot - after(highest(decided));
    assert(new[k] == (slot, log[slot as int].value));
    assert(u.reapplied().pending_decisions =~= new);
}

/// Entries that are in the log are not placed again.
proof fn lemma_placing_again<T>(
    s: RaftState<T>,
    term: u64,
    prev: Option<u64>,
    entries: Seq<Entry<T>>,
)
    requires
        prev matches Some(p) ==> p < s.log.len(),
        after(prev) + entries.len() <= u64::MAX,
    ensures
        ({
            let t = s.placing(term, prev, entries);
            &&& t.placing(term, prev, entries) == t
            &&& after(prev) <= t.log.len()
            &&& forall|i: int| 0 <= i < after(prev) ==> #[trigger] t.log[i] == s.log[i]
        }),
{
    let start = after(prev);
    let end = start + entries.len();
    let k = held(s.log, start, entries, 0);
    let t = s.placing(term, prev, entries);
    lemma_held_bounds(s.log, start, entries, 0);
    lemma_held_bounds(t.log, start, entries, 0);
    if k > 0 {
        assert(held_at(s.log, start, entries, k - 1));
    }
    assert(start + k <= s.log.len());
    let m = held(t.log, start, entries, 0);
    if m < entries.len() {
        if m < k {
            assert(held_at(s.log, start, entries, m));
            assert(t.log[start + m] == s.log[start + m]);
        } else {
            assert(t.log == placed(s.log, start, entries));
            assert(t.log[start + m] == entries[m]);
        }
        assert(held_at(t.log, start, entries, m));
    }
    if k < entries.len() {
        assert(t.log.len() == end);
    } else if t != s {
        assert(entries.skip(k) =~= Seq::empty());
        assert(t.log.len() == end);
    }
}

/// The append handler is idempotent: an append that was taken in and is handled
/// again changes nothing but the time of the next election, and is answered as
/// before.
pub proof fn repeated_appends_change_nothing<T>(
    s: RaftState<T>,
    term: u64,
    leader: NodeName,
    prev: Option<u64>,
    prev_term: u64,
    entries: Seq<Entry<T>>,
    leader_commit: Option<u64>,
    now: u64,
    timeout: u64,
    later: u64,
    other_timeout: u64,
)
    requires
        after(prev) + entries.len() <= u64::MAX,
        s.on_append_entries(
            term,
            leader,
            prev,
            prev_term,
            entries,
            leader_commit,
            now,
            timeout,
        ).1[0].message matches RaftMsg::AppendEntriesResponse { success, .. } && success,
    ensures
        ({
            let (t, out) = s.on_append_entries(
                term,
                leader,
                prev,
                prev_term,
                entries,
                leader_commit,
                now,
                timeout,
            );
            t.on_append_entries(
                term,
                leader,
                prev,
                prev_term,
                entries,
                leader_commit,
                later,
                other_timeout,
            ) == (
                RaftState { election_deadline: deadline(later, other_timeout), ..t },
                seq![out[0]],
            )
        }),
{
    let (t, out) = s.on_append_entries(
        term,
        leader,
        prev,
        prev_term,
        entries,
        leader_commit,
        now,
        timeout,
    );
    let d = s.following(leader, now, timeout);
    let verified = verified_index(prev, entries.len() as int);
    lemma_placing_core(d, term, prev, entries);
    lemma_placing_again(d, term, prev, entries);
    let p = d.placing(term, prev, entries);
    lemma_learn_core(p, leader_commit, verified);
    let e = t.following(leader, later, other_timeout);
    assert(e.log == p.log);
    assert(holds_prev(e.log, prev, prev_term));
    assert(e.placing(term, prev, entries) == e);
    assert(e.learn_commit(leader_commit, verified) == e);
    assert(forwards(leader, e.pending_proposals) =~= Seq::empty());
    assert(t.on_append_entries(
        term,
        leader,
        prev,
        prev_term,
        entries,
        leader_commit,
        later,
        other_timeout,
    ).1 =~= seq![out[0]]);
}

/// An append that is delivered again changes nothing but the time of the next
/// election, and is answered as before.
pub proof fn appends_are_idempotent<T>(
    s: RaftState<T>,
    from: NodeName,
    message: RaftMsg<T>,
    now: u64,
    timeout: u64,
    later: u64,
    other_timeout: u64,
)
    requires
        message matches RaftMsg::AppendEntries { prev_log_index, entries, .. } && after(
            prev_log_index,
        ) + entries.len() <= u64::MAX,
        s.receive(from, message, now, timeout).1[0].message
            matches RaftMsg::AppendEntriesResponse { success, .. } && success,
    ensures
        ({
            let (t, out) = s.receive(from, message, now, timeout);
            t.receive(from, message, later, other_timeout) == (
                RaftState { election_deadline: deadline(later, other_timeout), ..t },
                seq![out[0]],
            )
        }),
{
    match message {
        RaftMsg::AppendEntries {
            term,
            leader,
            prev_log_index,
            prev_log_term,
            entries,
            leader_commit,
        } => {
            let t = s.receive(from, message, now, timeout).0;
            let c = s.caught_up(message, now, timeout);
            let d = c.following(leader, now, timeout);
            lemma_placing_core(d, term, prev_log_index, entries);
            lemma_learn_core(
                d.placing(term, prev_log_index, entries),
                leader_commit,
                verified_index(prev_log_index, entries.len() as int),
            );
            assert(t.caught_up(message, later, other_timeout) == t);
            repeated_appends_change_nothing(
                c,
                term,
                leader,
                prev_log_index,
                prev_log_term,
                entries,
                leader_commit,
                now,
                timeout,
                later,
                other_timeout,
            );
        },
        _ => {},
    }
}

/// A vote stands: where the vote handler granted a vote, then as long as the node
/// holds to it, every other candidate is refused without a change, and the same
/// request is granted again if term and log are as they were.
pub proof fn a_vote_stands<T>(
    s: RaftState<T>,
    term: u64,
    candidate: NodeName,
    last_log_index: Option<u64>,
    last_log_term: u64,
    now: u64,
    timeout: u64,
    u: RaftState<T>,
    other: NodeName,
    other_request: u64,
    other_index: Option<u64>,
    other_term: u64,
    later: u64,
    other_timeout: u64,
)
    requires
        s.grants(term, candidate, last_log_index, last_log_term),
        u.voted_for == s.on_request_vote(
            term,
            candidate,
            last_log_index,
            last_log_term,
            now,
            timeout,
        ).0.voted_for,
    ensures
        ({
            let (t, out) = s.on_request_vote(
                term,
                candidate,
                last_log_index,
                last_log_term,
                now,
                timeout,
            );
            let again = u.on_request_vote(
                term,
                candidate,
                last_log_index,
                last_log_term,
                later,
                other_timeout,
            );
            let answer = RaftMsg::<T>::RequestVoteResponse {
                term: s.current_term,
                vote_granted: true,
            };
            let refusal = RaftMsg::<T>::RequestVoteResponse {
                term: u.current_term,
                vote_granted: false,
            };
            &&& t.voted_for == Some(candidate) && out == to(candidate, answer)
            &&& other != candidate ==> u.on_request_vote(
                other_request,
                other,
                other_index,
                other_term,
                later,
                other_timeout,
            ) == (u, to(other, refusal))
            &&& u.current_term == s.current_term && u.log == s.log ==> again.1 == to(
                candidate,
                answer,
            ) && again.0.voted_for == Some(candidate)
        }),
{
}

/// One vote per term: where a node granted a vote, then as long as it is in that
/// term with that vote, every other candidate of the term is refused, and the
/// same request is granted again if the log is as it was.
pub proof fn votes_are_given_once<T>(
    s: RaftState<T>,
    term: u64,
    candidate: NodeName,
    last_log_index: Option<u64>,
    last_log_term: u64,
    now: u64,
    timeout: u64,
    u: RaftState<T>,
    other: NodeName,
    other_index: Option<u64>,
    other_term: u64,
    later: u64,
    other_timeout: u64,
)
    requires
        ({
            let request = RaftMsg::RequestVote { term, candidate, last_log_index, last_log_term };
            let (t, out) = s.receive(candidate, request, now, timeout);
            &&& out == to(
                candidate,
                RaftMsg::<T>::RequestVoteResponse { term, vote_granted: true },
            )
            &&& u.current_term == t.current_term
            &&& u.voted_for == t.voted_for
        }),
    ensures
        ({
            let request = RaftMsg::RequestVote { term, candidate, last_log_index, last_log_term };
            let rival = RaftMsg::RequestVote {
                term,
                candidate: other,
                last_log_index: other_index,
                last_log_term: other_term,
            };
            let t = s.receive(candidate, request, now, timeout).0;
            &&& t.current_term == term && t.voted_for == Some(candidate)
            &&& other != candidate ==> u.receive(other, rival, later, other_timeout) == (
                u,
                to(other, RaftMsg::<T>::RequestVoteResponse { term, vote_granted: false }),
            )
            &&& u.log == s.log ==> u.receive(candidate, request, later, other_timeout).1 == to(
                candidate,
                RaftMsg::<T>::RequestVoteResponse { term, vote_granted: true },
            ) && u.receive(candidate, request, later, other_timeout).0.voted_for == Some(candidate)
        }),
{
    let request = RaftMsg::RequestVote { term, candidate, last_log_index, last_log_term };
    let (t, out) = s.receive(candidate, request, now, timeout);
    let c = s.caught_up(request, now, timeout);
    let granted = c.grants(term, candidate, last_log_index, last_log_term);
    let answer = RaftMsg::<T>::RequestVoteResponse {
        term: c.current_term,
        vote_granted: granted,
    };
    assert(out == to(candidate, answer));
    assert(to(candidate, answer)[0].message == answer);
    assert(to(candidate, RaftMsg::<T>::RequestVoteResponse { term, vote_granted: true })[0].message
        == (RaftMsg::<T>::RequestVoteResponse { term, vote_granted: true }));
}

} // verus!
