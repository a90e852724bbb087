//! What Raft is for: who gets a vote and when a candidate leads, how a follower
//! that lags or differs is brought back into step, when a leader commits, and
//! what becomes of every proposal.
use crate::config::NodeName;
use crate::message::{Entry, Packet, RaftMsg, Target, MAX_FORWARD_HOPS};
use crate::raft_cluster::lemma_last_of_term;
use crate::raft_laws::{
    held_at, lemma_held_bounds, lemma_learn_core, lemma_placing_core, Event,
};
use crate::raft_model::{
    after, deadline, first_of_term, forwards, has_term, held, highest, holds_prev, is_highest,
    is_last_of_term, is_quorum_index, majority, quorum_index, replicated_on, verified_index,
    RaftState, Role,
};
use vstd::prelude::*;

verus! {

/// More than half of the nodes are a majority, and no fewer.
pub proof fn a_majority_is_more_than_half(total: usize)
    ensures
        2 * majority(total) > total,
        2 * (majority(total) - 1) <= total,
{
}

/// A deadline lies the whole delay behind now, or at the end of time where that comes
/// first.
pub proof fn deadlines_lie_a_delay_ahead(now: u64, delay: u64)
    ensures
        deadline(now, delay) - now == delay || (deadline(now, delay) == u64::MAX && now + delay
            > u64::MAX),
        deadline(now, delay) >= now,
{
}

/// What a vote request gets: it is granted exactly if its term is not behind, no
/// other candidate has the vote of that term, and the candidate's last entry is
/// of a later term than the node's or, of the same term, not before it. The
/// candidate is answered in either case.
pub proof fn votes_go_to_logs_that_are_not_behind<T>(
    s: RaftState<T>,
    from: NodeName,
    term: u64,
    candidate: NodeName,
    index: Option<u64>,
    last: u64,
    now: u64,
    timeout: u64,
)
    requires
        s.log.len() <= u64::MAX,
    ensures
        ({
            let request = RaftMsg::RequestVote {
                term,
                candidate,
                last_log_index: index,
                last_log_term: last,
            };
            let (t, out) = s.receive(from, request, now, timeout);
            let free = term > s.current_term || s.voted_for is None || s.voted_for == Some(
                candidate,
            );
            let ours = s.log[s.log.len() - 1].term;
            let not_behind = s.log.len() == 0 || last > ours || (last == ours && index is Some
                && index->0 + 1 >= s.log.len());
            let granted = term >= s.current_term && free && not_behind;
            &&& out.len() == 1
            &&& out[0].target == Target::Peer(candidate)
            &&& out[0].message matches RaftMsg::RequestVoteResponse { term: u, vote_granted }
                && vote_granted == granted && u == t.current_term
            &&& t.current_term == (if term > s.current_term {
                term
            } else {
                s.current_term
            })
            &&& granted ==> t.voted_for == Some(candidate)
            &&& !granted && term > s.current_term ==> t.voted_for is None
            &&& !granted && term <= s.current_term ==> t == s
            &&& granted && now + timeout <= u64::MAX ==> t.election_deadline == now + timeout
            &&& t.log == s.log
        }),
{
}

/// The request with which a node stands for election in a term.
pub open spec fn asks<T>(s: RaftState<T>, term: u64) -> RaftMsg<T> {
    RaftMsg::RequestVote {
        term,
        candidate: s.node_id,
        last_log_index: if s.log.len() == 0 {
            None
        } else {
            Some((s.log.len() - 1) as u64)
        },
        last_log_term: if s.log.len() == 0 {
            0
        } else {
            s.log[s.log.len() - 1].term
        },
    }
}

/// Whether a vote is given.
pub open spec fn given<T>(out: Seq<Packet<RaftMsg<T>>>) -> bool {
    out.len() == 1 && (out[0].message matches RaftMsg::RequestVoteResponse { vote_granted, .. }
        && vote_granted)
}

/// Any two nodes can elect one of them: in a new term, one of the two at least
/// gets the vote of the other, and of two with the same log both do.
pub proof fn one_of_two_can_be_elected<T>(
    a: RaftState<T>,
    b: RaftState<T>,
    term: u64,
    now: u64,
    timeout: u64,
)
    requires
        a.log.len() <= u64::MAX,
        b.log.len() <= u64::MAX,
        a.current_term < term,
        b.current_term < term,
    ensures
        given(a.receive(b.node_id, asks(b, term), now, timeout).1) || given(
            b.receive(a.node_id, asks(a, term), now, timeout).1,
        ),
        a.log == b.log ==> given(a.receive(b.node_id, asks(b, term), now, timeout).1),
{
}

/// A node gives no vote to a log that is a proper beginning of its own, nor to
/// one that ends in an earlier term.
pub proof fn no_vote_for_a_log_behind<T>(
    s: RaftState<T>,
    other: RaftState<T>,
    term: u64,
    now: u64,
    timeout: u64,
)
    requires
        0 < s.log.len() <= u64::MAX,
        other.log.len() == 0 || other.log[other.log.len() - 1].term < s.log[s.log.len() - 1].term
            || (other.log.len() < s.log.len() && other.log[other.log.len() - 1].term
            == s.log[s.log.len() - 1].term),
        s.log[s.log.len() - 1].term > 0,
    ensures
        !given(s.receive(other.node_id, asks(other, term), now, timeout).1),
{
}

/// Time passes at a node that does not lead: where its deadline has come, it
/// stands for election in the next term with its own vote and, unless that is a
/// majority already, asks every node for theirs; before that nothing happens but
/// that committed entries are queued.
pub proof fn elections_start_when_due<T>(s: RaftState<T>, now: u64, timeout: u64)
    requires
        s.role != Role::Leader,
        s.current_term < u64::MAX,
    ensures
        ({
            let (t, out) = s.tick(now, timeout);
            &&& now < s.election_deadline ==> out.len() == 0 && t.current_term == s.current_term
                && t.role == s.role && t.voted_for == s.voted_for
            &&& now >= s.election_deadline ==> {
                &&& t.current_term == s.current_term + 1
                &&& t.voted_for == Some(s.node_id)
                &&& now + timeout <= u64::MAX ==> t.election_deadline == now + timeout
                &&& s.total_nodes > 1 ==> {
                    &&& t.role == Role::Candidate
                    &&& t.votes_received == set![s.node_id]
                    &&& t.leader is None
                    &&& t.log == s.log
                    &&& out.len() == 1
                    &&& out[0].target == Target::Broadcast
                    &&& out[0].message == asks(s, t.current_term)
                }
                &&& s.total_nodes <= 1 ==> t.role == Role::Leader && t.leader == Some(s.node_id)
            }
        }),
{
}

/// Proposals wait for one election: the first after a leader is gone keeps them, and
/// the next one hands them all back as lost, in order.
pub proof fn proposals_wait_for_one_election<T>(s: RaftState<T>, now: u64, timeout: u64)
    requires
        s.role != Role::Leader,
        s.current_term < u64::MAX,
        s.total_nodes > 1,
        now >= s.election_deadline,
    ensures
        ({
            let t = s.tick(now, timeout).0;
            &&& s.role == Role::Follower ==> t.pending_proposals == s.pending_proposals
                && t.lost_proposals == s.lost_proposals
            &&& s.role == Role::Candidate ==> t.pending_proposals == Seq::<T>::empty()
                && t.lost_proposals == s.lost_proposals + s.pending_proposals
        }),
{
}

/// The message with which a leader offers its log from a position on.
pub open spec fn offers<T>(l: RaftState<T>, from: int) -> RaftMsg<T> {
    RaftMsg::AppendEntries {
        term: l.current_term,
        leader: l.node_id,
        prev_log_index: if from == 0 {
            None
        } else {
            Some((from - 1) as u64)
        },
        prev_log_term: if from == 0 {
            0
        } else {
            l.log[from - 1].term
        },
        entries: l.log.subrange(from, l.log.len() as int),
        leader_commit: l.commit_index,
    }
}

/// A vote counts once for its voter: a candidate that hears a vote of its term
/// leads as soon as more than half of the nodes have given theirs, and not
/// before. A new leader has its buffered proposals in its log, in their order, and
/// tells every node.
pub proof fn a_majority_of_votes_leads<T>(s: RaftState<T>, from: NodeName, now: u64, timeout: u64)
    requires
        s.role == Role::Candidate,
        s.votes_received.finite(),
        s.log.len() + s.pending_proposals.len() <= u64::MAX,
    ensures
        ({
            let vote = RaftMsg::RequestVoteResponse { term: s.current_term, vote_granted: true };
            let (t, out) = s.receive(from, vote, now, timeout);
            let votes = s.votes_received.insert(from);
            &&& t.current_term == s.current_term
            &&& t.votes_received == votes
            &&& 2 * votes.len() > s.total_nodes <==> t.role == Role::Leader
            &&& t.role == Role::Leader ==> {
                &&& t.leader == Some(s.node_id)
                &&& t.next_index == Map::<NodeName, u64>::empty()
                &&& forall|n: NodeName| #[trigger]
                    t.match_index.contains_key(n) ==> n == s.node_id
                &&& t.pending_proposals.len() == 0
                &&& t.log.len() == s.log.len() + s.pending_proposals.len()
                &&& forall|i: int| 0 <= i < s.log.len() ==> #[trigger] t.log[i] == s.log[i]
                &&& forall|i: int|
                    0 <= i < s.pending_proposals.len() ==> t.log[s.log.len() + i] == (Entry {
                        term: s.current_term,
                        value: #[trigger] s.pending_proposals[i],
                    })
                &&& out.len() == 1
                &&& out[0].target == Target::Broadcast
                &&& out[0].message == offers(t, s.log.len() as int)
                &&& t.last_heartbeat_sent == Some(now)
            }
            &&& t.role != Role::Leader ==> out.len() == 0 && t.role == Role::Candidate && t.log
                == s.log
        }),
{
    let vote = RaftMsg::<T>::RequestVoteResponse { term: s.current_term, vote_granted: true };
    let (t, out) = s.receive(from, vote, now, timeout);
    if t.role == Role::Leader {
        assert(offers(t, s.log.len() as int)->entries =~= t.log.skip(s.log.len() as int));
    }
}

/// A leader speaks up when its interval has passed, and not before.
pub proof fn heartbeats_are_sent_when_due<T>(s: RaftState<T>, now: u64, timeout: u64)
    requires
        s.role == Role::Leader,
        s.log.len() <= u64::MAX,
    ensures
        ({
            let (t, out) = s.tick(now, timeout);
            let due = s.last_heartbeat_sent is None || now >= s.last_heartbeat_sent->0
                + s.config.heartbeat_interval || s.config.heartbeat_interval == 0;
            &&& t.role == Role::Leader && t.current_term == s.current_term && t.log == s.log
            &&& due ==> out.len() == 1 && out[0].target == Target::Broadcast && out[0].message
                == offers(s, s.log.len() as int) && t.last_heartbeat_sent == Some(now)
            &&& !due ==> out.len() == 0 && t.last_heartbeat_sent == s.last_heartbeat_sent
        }),
{
    assert(offers(s, s.log.len() as int)->entries =~= s.log.skip(s.log.len() as int));
}

/// Whether two logs come from the same leaders: where they hold entries of the
/// same term, they are the same up to the earlier of the two.
pub open spec fn same_origin<T>(a: Seq<Entry<T>>, b: Seq<Entry<T>>) -> bool {
    forall|i: int, j: int, k: int|
        #![trigger a[i], b[j], a[k]]
        0 <= k <= i < a.len() && k <= j < b.len() && a[i].term == b[j].term ==> a[k] == b[k]
}

/// Where logs of the same origin hold entries of the same term, they agree.
proof fn lemma_same<T>(a: Seq<Entry<T>>, b: Seq<Entry<T>>, i: int, j: int, k: int)
    requires
        same_origin(a, b),
        0 <= k <= i < a.len(),
        k <= j < b.len(),
        a[i].term == b[j].term,
    ensures
        a[k] == b[k],
{
    let x = a[i];
    let y = b[j];
    let z = a[k];
}

/// What an append holds of the log of its leader: the entries from `start` to
/// `end`.
pub open spec fn part<T>(
    log: Seq<Entry<T>>,
    term: u64,
    leader: NodeName,
    start: int,
    end: int,
    commit: Option<u64>,
) -> RaftMsg<T> {
    RaftMsg::AppendEntries {
        term,
        leader,
        prev_log_index: if start == 0 {
            None
        } else {
            Some((start - 1) as u64)
        },
        prev_log_term: if start == 0 {
            0
        } else {
            log[start - 1].term
        },
        entries: log.subrange(start, end),
        leader_commit: commit,
    }
}

/// Whether a node refuses an append whatever its log: it knows a later term, or
/// leads the term itself.
pub open spec fn turns_down<T>(s: RaftState<T>, term: u64) -> bool {
    term < s.current_term || (term == s.current_term && s.role == Role::Leader)
}

/// Whether a log meets another right before a position.
pub open spec fn meets<T>(a: Seq<Entry<T>>, b: Seq<Entry<T>>, at: int) -> bool {
    at == 0 || (at <= a.len() && a[at - 1].term == b[at - 1].term)
}

/// Whether two logs are the same up to a position.
pub open spec fn same_to<T>(a: Seq<Entry<T>>, b: Seq<Entry<T>>, end: int) -> bool {
    &&& end <= a.len()
    &&& end <= b.len()
    &&& forall|i: int| 0 <= i < end ==> #[trigger] a[i] == b[i]
}

/// Whether a log holds an entry of a term at a position or behind it.
pub open spec fn goes_on<T>(log: Seq<Entry<T>>, from: int, term: u64) -> bool {
    exists|j: int| from <= j < log.len() && (#[trigger] log[j]).term == term
}

/// An append that meets a log makes it the leader's up to where the append ends,
/// and tells the leader so. What lies behind goes, unless the leader of this very
/// term made it.
pub proof fn appends_make_the_log_the_leaders<T>(
    s: RaftState<T>,
    from: NodeName,
    log: Seq<Entry<T>>,
    term: u64,
    leader: NodeName,
    start: int,
    end: int,
    commit: Option<u64>,
    now: u64,
    timeout: u64,
)
    requires
        0 <= start <= end <= log.len() <= u64::MAX,
        s.log.len() <= u64::MAX,
        same_origin(s.log, log),
        !turns_down(s, term),
        meets(s.log, log, start),
    ensures
        ({
            let (t, out) = s.receive(
                from,
                part(log, term, leader, start, end, commit),
                now,
                timeout,
            );
            &&& t.role == Role::Follower
            &&& t.current_term == term
            &&& t.leader == Some(leader)
            &&& now + timeout <= u64::MAX ==> t.election_deadline == now + timeout
            &&& same_to(t.log, log, end)
            &&& end > 0 ==> t.log.len() == end || (t.log == s.log && goes_on(s.log, end, term))
            &&& end == 0 ==> t.log == s.log
            &&& same_to(s.log, log, end) && goes_on(s.log, end, term) ==> t.log == s.log
            &&& out.len() == 1 + s.pending_proposals.len()
            &&& out[0] == (Packet {
                target: Target::Peer(leader),
                message: RaftMsg::<T>::AppendEntriesResponse {
                    term,
                    success: true,
                    match_index: if end == 0 {
                        None
                    } else {
                        Some((end - 1) as u64)
                    },
                    conflict_term: None,
                    conflict_index: None,
                },
            })
            &&& t.commit_index == (match commit {
                Some(c) => {
                    let reached = if c < end {
                        c as int
                    } else {
                        end - 1
                    };
                    if end > 0 && (s.commit_index is None || s.commit_index->0 < reached) {
                        Some(reached as u64)
                    } else {
                        s.commit_index
                    }
                },
                None => s.commit_index,
            })
        }),
{
    let d = lemma_heard(s, from, log, term, leader, start, end, commit, now, timeout);
    lemma_taken_in(d, term, log, leader, start, end, commit);
}

/// A node that does not turn an append down, and whose log meets it, takes it in
/// as a follower of the leader.
proof fn lemma_heard<T>(
    s: RaftState<T>,
    from: NodeName,
    log: Seq<Entry<T>>,
    term: u64,
    leader: NodeName,
    start: int,
    end: int,
    commit: Option<u64>,
    now: u64,
    timeout: u64,
) -> (d: RaftState<T>)
    requires
        0 <= start <= end <= log.len() <= u64::MAX,
        s.log.len() <= u64::MAX,
        !turns_down(s, term),
        meets(s.log, log, start),
    ensures
        ({
            let message = part(log, term, leader, start, end, commit);
            s.receive(from, message, now, timeout) == d.accept_append(
                term,
                leader,
                message->prev_log_index,
                log.subrange(start, end),
                commit,
            )
        }),
        d.role == Role::Follower,
        d.current_term == term,
        d.leader == Some(leader),
        now + timeout <= u64::MAX ==> d.election_deadline == now + timeout,
        d.log == s.log,
        d.commit_index == s.commit_index,
        d.pending_proposals == s.pending_proposals,
{
    let message = part(log, term, leader, start, end, commit);
    s.caught_up(message, now, timeout).following(leader, now, timeout)
}

/// What taking in a part of a leader's log results in.
proof fn lemma_taken_in<T>(
    d: RaftState<T>,
    term: u64,
    log: Seq<Entry<T>>,
    leader: NodeName,
    start: int,
    end: int,
    commit: Option<u64>,
)
    requires
        0 <= start <= end <= log.len() <= u64::MAX,
        d.log.len() <= u64::MAX,
        same_origin(d.log, log),
        meets(d.log, log, start),
        d.current_term == term,
    ensures
        ({
            let prev = if start == 0 {
                None
            } else {
                Some((start - 1) as u64)
            };
            let entries = log.subrange(start, end);
            let p = d.placing(term, prev, entries);
            let (t, out) = d.accept_append(term, leader, prev, entries, commit);
            let reached = if commit is Some && commit->0 < end {
                commit->0 as int
            } else {
                end - 1
            };
            &&& t.log == p.log
            &&& same_to(t.log, log, end)
            &&& end > 0 ==> t.log.len() == end || (t.log == d.log && goes_on(d.log, end, term))
            &&& end == 0 ==> t.log == d.log
            &&& same_to(d.log, log, end) && goes_on(d.log, end, term) ==> t.log == d.log
            &&& t.role == d.role && t.current_term == d.current_term && t.leader == d.leader
            &&& t.election_deadline == d.election_deadline
            &&& t.pending_proposals.len() == 0
            &&& out.len() == 1 + d.pending_proposals.len()
            &&& out[0] == (Packet {
                target: Target::Peer(leader),
                message: RaftMsg::<T>::AppendEntriesResponse {
                    term,
                    success: true,
                    match_index: if end == 0 {
                        None
                    } else {
                        Some((end - 1) as u64)
                    },
                    conflict_term: None,
                    conflict_index: None,
                },
            })
            &&& t.commit_index == (if commit is Some && end > 0 && (d.commit_index is None
                || d.commit_index->0 < reached) {
                Some(reached as u64)
            } else {
                d.commit_index
            })
        }),
{
    let prev = if start == 0 {
        None
    } else {
        Some((start - 1) as u64)
    };
    let entries = log.subrange(start, end);
    lemma_placing_core(d, term, prev, entries);
    lemma_placing_makes(d, term, log, start, end);
    lemma_learn_core(
        d.placing(term, prev, entries),
        commit,
        verified_index(prev, entries.len() as int),
    );
}

/// Placing a part of a leader's log makes the log the leader's.
proof fn lemma_placing_makes<T>(
    d: RaftState<T>,
    term: u64,
    log: Seq<Entry<T>>,
    start: int,
    end: int,
)
    requires
        0 <= start <= end <= log.len() <= u64::MAX,
        d.log.len() <= u64::MAX,
        same_origin(d.log, log),
        meets(d.log, log, start),
    ensures
        ({
            let prev = if start == 0 {
                None
            } else {
                Some((start - 1) as u64)
            };
            let t = d.placing(term, prev, log.subrange(start, end));
            &&& same_to(t.log, log, end)
            &&& end > 0 ==> t.log.len() == end || (t.log == d.log && goes_on(d.log, end, term))
            &&& end == 0 ==> t.log == d.log
            &&& same_to(d.log, log, end) && goes_on(d.log, end, term) ==> t.log == d.log
        }),
{
    let prev = if start == 0 {
        None
    } else {
        Some((start - 1) as u64)
    };
    let entries = log.subrange(start, end);
    let t = d.placing(term, prev, entries);
    let k = held(d.log, start, entries, 0);
    assert(after(prev) == start);
    lemma_held_bounds(d.log, start, entries, 0);
    if k > 0 {
        assert(held_at(d.log, start, entries, k - 1));
    }
    assert forall|i: int| 0 <= i < end implies i < t.log.len() && #[trigger] t.log[i] == log[i] by {
        if i < start {
            lemma_same(d.log, log, start - 1, start - 1, i);
        } else if i - start < k {
            assert(held_at(d.log, start, entries, i - start));
            lemma_same(d.log, log, i, i, i);
        }
    }
    if same_to(d.log, log, end) && k < entries.len() {
        assert(d.log[start + k] == log[start + k]);
        assert(held_at(d.log, start, entries, k));
    }
}

/// What a refused append is answered: a node that knows a later term, or leads
/// the term, gives no hint; one whose log is too short tells its length; and one
/// whose log holds another term before the append tells that term, and where it
/// begins.
pub proof fn refusals_tell_where_the_logs_part<T>(
    s: RaftState<T>,
    from: NodeName,
    log: Seq<Entry<T>>,
    term: u64,
    leader: NodeName,
    start: int,
    end: int,
    commit: Option<u64>,
    now: u64,
    timeout: u64,
)
    requires
        0 <= start <= end <= log.len() <= u64::MAX,
        s.log.len() <= u64::MAX,
        turns_down(s, term) || !meets(s.log, log, start),
    ensures
        ({
            let (t, out) = s.receive(
                from,
                part(log, term, leader, start, end, commit),
                now,
                timeout,
            );
            &&& t.log == s.log
            &&& t.commit_index == s.commit_index
            &&& t.pending_proposals == s.pending_proposals
            &&& !turns_down(s, term) ==> t.role == Role::Follower && t.leader == Some(leader)
                && t.current_term == term && (now + timeout <= u64::MAX ==> t.election_deadline
                == now + timeout)
            &&& out.len() == 1
            &&& out[0].target == Target::Peer(leader)
            &&& out[0].message matches RaftMsg::AppendEntriesResponse {
                term: u,
                success,
                match_index,
                conflict_term,
                conflict_index,
            } && u == t.current_term && !success && match_index is None && {
                if turns_down(s, term) {
                    t == s && conflict_term is None && conflict_index is None
                } else if s.log.len() < start {
                    conflict_term is None && conflict_index == Some(s.log.len() as u64)
                } else {
                    &&& conflict_term == Some(s.log[start - 1].term)
                    &&& conflict_index is Some
                    &&& conflict_index->0 < start
                    &&& s.log[conflict_index->0 as int].term == s.log[start - 1].term
                    &&& forall|j: int|
                        0 <= j < conflict_index->0 ==> (#[trigger] s.log[j]).term
                            != s.log[start - 1].term
                }
            }
        }),
{
    if !turns_down(s, term) && s.log.len() >= start {
        lemma_first_of_term(s.log, s.log[start - 1].term, start - 1);
    }
}

/// The first position of a term is at or before any position of it.
proof fn lemma_first_of_term<T>(log: Seq<Entry<T>>, term: u64, at: int)
    requires
        0 <= at < log.len(),
        log[at].term == term,
    ensures
        ({
            let f = first_of_term(log, term);
            0 <= f <= at && log[f].term == term && forall|j: int|
                0 <= j < f ==> (#[trigger] log[j]).term != term
        }),
    decreases at,
{
    if exists|j: int| 0 <= j < at && (#[trigger] log[j]).term == term {
        let j = choose|j: int| 0 <= j < at && (#[trigger] log[j]).term == term;
        lemma_first_of_term(log, term, j);
    } else {
        assert(0 <= at < log.len() && log[at].term == term && forall|j: int|
            0 <= j < at ==> log[j].term != term);
        let f = first_of_term(log, term);
        assert(0 <= f < log.len() && log[f].term == term && forall|j: int|
            0 <= j < f ==> log[j].term != term);
        if at < f {
            assert(log[at].term != term);
        }
    }
}

/// What a leader makes of a refusal in its term: it offers its log again, from
/// where the follower's log ends or the term in question begins there, and from
/// behind that term where the leader holds it itself. Without a hint it goes back
/// by one.
pub proof fn refusals_are_answered_from_further_back<T>(
    l: RaftState<T>,
    from: NodeName,
    conflict_term: Option<u64>,
    conflict_index: Option<u64>,
    now: u64,
    timeout: u64,
)
    requires
        l.role == Role::Leader,
        l.log.len() <= u64::MAX,
    ensures
        ({
            let refusal = RaftMsg::AppendEntriesResponse {
                term: l.current_term,
                success: false,
                match_index: None,
                conflict_term,
                conflict_index,
            };
            let (t, out) = l.receive(from, refusal, now, timeout);
            let next = t.next_index[from] as int;
            &&& t == (RaftState { next_index: l.next_index.insert(from, next as u64), ..l })
            &&& 0 <= next <= l.log.len()
            &&& out.len() == 1
            &&& out[0] == (Packet { target: Target::Peer(from), message: offers(l, next) })
            &&& conflict_index matches Some(ci) ==> {
                let min = if ci <= l.log.len() {
                    ci as int
                } else {
                    l.log.len() as int
                };
                match conflict_term {
                    None => next == min,
                    Some(ct) => if exists|i: int|
                        0 <= i < l.log.len() && (#[trigger] l.log[i]).term == ct {
                        &&& next > 0 && l.log[next - 1].term == ct
                        &&& forall|j: int| next <= j < l.log.len() ==> (#[trigger] l.log[j]).term
                            != ct
                    } else {
                        next == min
                    },
                }
            }
            &&& conflict_index is None && l.next_index.contains_key(from) && 0
                < l.next_index[from] <= l.log.len() ==> next == l.next_index[from] - 1
            &&& conflict_index is None && !l.next_index.contains_key(from) && l.log.len() > 0
                ==> next == l.log.len() - 1
            &&& conflict_index is None && l.next_index.contains_key(from) && l.next_index[from]
                == 0 ==> next == 0
        }),
{
    let next = l.backed_up(from, conflict_term, conflict_index);
    if let Some(ct) = conflict_term {
        if exists|i: int| 0 <= i < l.log.len() && (#[trigger] l.log[i]).term == ct {
            let i = choose|i: int| 0 <= i < l.log.len() && (#[trigger] l.log[i]).term == ct;
            assert(has_term(l.log, ct));
            lemma_last_of_term(l.log, ct, l.log.len() as int);
            let last = choose|i: int| is_last_of_term(l.log, ct, i);
            assert(is_last_of_term(l.log, ct, last));
        } else {
            assert(!has_term(l.log, ct));
        }
    }
    assert(0 <= next <= l.log.len());
    assert(offers(l, next)->entries =~= l.log.skip(next));
}

/// A leader and a follower after a number of rounds in which the follower hears
/// an append, and the leader its answer.
pub open spec fn exchanged<T>(
    l: RaftState<T>,
    f: RaftState<T>,
    message: RaftMsg<T>,
    rounds: nat,
    now: u64,
    timeout: u64,
) -> (RaftState<T>, RaftState<T>)
    decreases rounds,
{
    if rounds == 0 {
        (l, f)
    } else {
        let (heard, reply) = f.receive(l.node_id, message, now, timeout);
        let (next, again) = l.receive(f.node_id, reply[0].message, now, timeout);
        if again.len() == 0 {
            (next, heard)
        } else {
            exchanged(next, heard, again[0].message, (rounds - 1) as nat, now, timeout)
        }
    }
}

/// A follower is brought back into step: whatever its log, after some rounds it
/// holds the log of its leader, and the leader knows. Every refusal makes the
/// leader ask about an earlier position.
pub proof fn a_follower_comes_into_step<T>(
    l: RaftState<T>,
    f: RaftState<T>,
    from: int,
    now: u64,
    timeout: u64,
) -> (rounds: nat)
    requires
        l.role == Role::Leader,
        !turns_down(f, l.current_term),
        0 < l.log.len() < u64::MAX,
        f.log.len() <= u64::MAX,
        0 <= from <= l.log.len(),
        same_origin(f.log, l.log),
        forall|j: int|
            l.log.len() <= j < f.log.len() ==> (#[trigger] f.log[j]).term != l.current_term,
    ensures
        1 <= rounds <= from + 1,
        ({
            let (m, g) = exchanged(l, f, offers(l, from), rounds, now, timeout);
            &&& g.log == l.log
            &&& g.leader == Some(l.node_id)
            &&& m.match_index.contains_key(f.node_id)
            &&& m.match_index[f.node_id] == Some((l.log.len() - 1) as u64)
        }),
    decreases from,
{
    let message = offers(l, from);
    let end = l.log.len() as int;
    assert(message == part(l.log, l.current_term, l.node_id, from, end, l.commit_index));
    let (heard, reply) = f.receive(l.node_id, message, now, timeout);
    if meets(f.log, l.log, from) {
        appends_make_the_log_the_leaders(
            f,
            l.node_id,
            l.log,
            l.current_term,
            l.node_id,
            from,
            end,
            l.commit_index,
            now,
            timeout,
        );
        assert(heard.log =~= l.log);
        let (next, again) = l.receive(f.node_id, reply[0].message, now, timeout);
        lemma_acknowledged(l, f.node_id, (end - 1) as u64, now, timeout);
        assert(exchanged(l, f, message, 1, now, timeout) == (next, heard));
        1
    } else {
        refusals_tell_where_the_logs_part(
            f,
            l.node_id,
            l.log,
            l.current_term,
            l.node_id,
            from,
            end,
            l.commit_index,
            now,
            timeout,
        );
        let ct = reply[0].message->conflict_term;
        let ci = reply[0].message->conflict_index;
        refusals_are_answered_from_further_back(l, f.node_id, ct, ci, now, timeout);
        let (next, again) = l.receive(f.node_id, reply[0].message, now, timeout);
        let back = next.next_index[f.node_id] as int;
        assert(back < from) by {
            if ct is Some && back >= from {
                // The leader's entry of that term would lie behind the follower's,
                // and the two would agree where they differ.
                if exists|i: int| 0 <= i < l.log.len() && (#[trigger] l.log[i]).term == ct->0 {
                    assert(l.log[back - 1].term == f.log[from - 1].term);
                    lemma_same(f.log, l.log, from - 1, back - 1, from - 1);
                    assert(false);
                }
            }
        }
        assert(again[0].message == offers(next, back)) by {
            assert(offers(next, back)->entries =~= offers(l, back)->entries);
        }
        let more = a_follower_comes_into_step(next, heard, back, now, timeout);
        assert(exchanged(l, f, message, more + 1, now, timeout) == exchanged(
            next,
            heard,
            again[0].message,
            more,
            now,
            timeout,
        ));
        more + 1
    }
}

/// An acknowledgement is noted, and answered with nothing.
proof fn lemma_acknowledged<T>(
    l: RaftState<T>,
    from: NodeName,
    index: u64,
    now: u64,
    timeout: u64,
)
    requires
        l.role == Role::Leader,
        index < l.log.len() <= u64::MAX,
    ensures
        ({
            let ack = RaftMsg::AppendEntriesResponse {
                term: l.current_term,
                success: true,
                match_index: Some(index),
                conflict_term: None,
                conflict_index: None,
            };
            let (t, out) = l.receive(from, ack, now, timeout);
            &&& out.len() == 0
            &&& t.match_index == l.match_index.insert(from, Some(index))
            &&& t.next_index == l.next_index.insert(from, (index + 1) as u64)
            &&& t.log == l.log
            &&& t.role == Role::Leader
            &&& t.current_term == l.current_term
        }),
{
}

/// Where enough nodes hold the log up to an index, the highest such index is
/// found, and is not lower.
proof fn lemma_highest_replicated(
    match_index: Map<NodeName, Option<u64>>,
    quorum: nat,
    i: u64,
)
    requires
        replicated_on(match_index, i).len() >= quorum,
    ensures
        quorum_index(match_index, quorum) is Some,
        quorum_index(match_index, quorum)->0 >= i,
        is_quorum_index(match_index, quorum, quorum_index(match_index, quorum)->0),
    decreases u64::MAX - i,
{
    if exists|higher: u64|
        i < higher && #[trigger] replicated_on(match_index, higher).len() >= quorum {
        let higher = choose|higher: u64|
            i < higher && #[trigger] replicated_on(match_index, higher).len() >= quorum;
        lemma_highest_replicated(match_index, quorum, higher);
    } else {
        assert(is_quorum_index(match_index, quorum, i));
        let c = quorum_index(match_index, quorum)->0;
        assert(is_quorum_index(match_index, quorum, c));
        if c < i {
            assert(replicated_on(match_index, i).len() < quorum);
        }
    }
}

/// Whether the terms of a log never fall, and none is later than `term`.
pub open spec fn terms_rise<T>(log: Seq<Entry<T>>, term: u64) -> bool {
    &&& forall|a: int, b: int| 0 <= a <= b < log.len() ==> log[a].term <= log[b].term
    &&& forall|a: int| 0 <= a < log.len() ==> (#[trigger] log[a]).term <= term
}

/// Whether the leader knows of each of these nodes that it holds the log up to an
/// index.
pub open spec fn all_hold<T>(l: RaftState<T>, q: Set<NodeName>, i: u64) -> bool {
    forall|n: NodeName| #[trigger]
        q.contains(n) ==> l.match_index.contains_key(n) && l.match_index[n] is Some
            && l.match_index[n]->0 >= i
}

/// Whether a leader's count is about entries that it has.
pub open spec fn counts_rightly<T>(l: RaftState<T>) -> bool {
    &&& l.match_index.dom().finite()
    &&& forall|n: NodeName| #[trigger]
        l.match_index.contains_key(n) && l.match_index[n] is Some ==> l.match_index[n]->0
            < l.log.len()
}

/// Committing goes as far as an entry of the leader's term that a majority holds.
proof fn lemma_commits<T>(l: RaftState<T>, q: Set<NodeName>, i: u64)
    requires
        counts_rightly(l),
        terms_rise(l.log, l.current_term),
        i < l.log.len() <= u64::MAX,
        l.log[i as int].term == l.current_term,
        all_hold(l, q, i),
        2 * q.len() > l.total_nodes,
    ensures
        l.advance_commit().commit_index is Some,
        l.advance_commit().commit_index->0 >= i,
{
    let holders = replicated_on(l.match_index, i);
    assert(holders.finite());
    assert(q.subset_of(holders));
    vstd::set_lib::lemma_len_subset(q, holders);
    lemma_highest_replicated(l.match_index, l.quorum(), i);
    let c = quorum_index(l.match_index, l.quorum())->0;
    assert(replicated_on(l.match_index, c).len() > 0);
    let n = replicated_on(l.match_index, c).choose();
    assert(replicated_on(l.match_index, c).contains(n));
    assert(l.match_index.contains_key(n));
    assert(l.log[i as int].term <= l.log[c as int].term);
}

/// An acknowledgement counts: a leader that hears that a node holds its log up to
/// an index commits every entry of its own term that more than half of the nodes
/// then hold, and with it all before.
pub proof fn a_majority_of_acknowledgements_commits<T>(
    l: RaftState<T>,
    from: NodeName,
    index: u64,
    q: Set<NodeName>,
    i: u64,
    now: u64,
    timeout: u64,
)
    requires
        l.role == Role::Leader,
        counts_rightly(l),
        terms_rise(l.log, l.current_term),
        index < l.log.len() <= u64::MAX,
        i < l.log.len(),
        l.log[i as int].term == l.current_term,
        forall|n: NodeName| #[trigger]
            q.contains(n) ==> if n == from {
                index >= i
            } else {
                l.match_index.contains_key(n) && l.match_index[n] is Some && l.match_index[n]->0
                    >= i
            },
        2 * q.len() > l.total_nodes,
    ensures
        ({
            let ack = RaftMsg::AppendEntriesResponse {
                term: l.current_term,
                success: true,
                match_index: Some(index),
                conflict_term: None,
                conflict_index: None,
            };
            let t = l.receive(from, ack, now, timeout).0;
            t.commit_index is Some && t.commit_index->0 >= i
        }),
{
    let m = RaftState {
        match_index: l.match_index.insert(from, Some(index)),
        next_index: l.next_index.insert(from, (index + 1) as u64),
        ..l
    };
    assert(counts_rightly(m));
    assert(all_hold(m, q, i));
    lemma_commits(m, q, i);
}

/// An acknowledgement commits nothing that less than half of the nodes hold, and
/// no entry of an earlier term by itself.
pub proof fn no_minority_commits<T>(
    l: RaftState<T>,
    from: NodeName,
    index: u64,
    now: u64,
    timeout: u64,
)
    requires
        l.role == Role::Leader,
        l.match_index.dom().finite(),
        index < l.log.len() <= u64::MAX,
    ensures
        ({
            let ack = RaftMsg::AppendEntriesResponse {
                term: l.current_term,
                success: true,
                match_index: Some(index),
                conflict_term: None,
                conflict_index: None,
            };
            let t = l.receive(from, ack, now, timeout).0;
            t.commit_index != l.commit_index ==> {
                &&& t.commit_index is Some
                &&& t.commit_index->0 < l.log.len()
                &&& l.log[t.commit_index->0 as int].term == l.current_term
                &&& l.commit_index is None || l.commit_index->0 < t.commit_index->0
                &&& exists|q: Set<NodeName>| #[trigger]
                    all_hold(t, q, t.commit_index->0) && 2 * q.len() > l.total_nodes
            }
        }),
{
    let m = RaftState {
        match_index: l.match_index.insert(from, Some(index)),
        next_index: l.next_index.insert(from, (index + 1) as u64),
        ..l
    };
    let t = m.advance_commit();
    if t.commit_index != l.commit_index {
        let c = t.commit_index->0;
        assert(is_quorum_index(m.match_index, m.quorum(), c));
        let q = replicated_on(m.match_index, c);
        assert(all_hold(t, q, c));
    }
}

/// A proposal at a leader enters its log as the last entry, of its term, and is
/// offered to every node. A leader that is alone decides it at once.
pub proof fn leaders_append_proposals<T>(l: RaftState<T>, value: T, now: u64)
    requires
        l.role == Role::Leader,
        l.log.len() < u64::MAX,
    ensures
        ({
            let (t, out) = l.propose(value, now);
            &&& t.log == l.log.push(Entry { term: l.current_term, value })
            &&& t.role == Role::Leader && t.current_term == l.current_term
            &&& t.match_index.contains_key(l.node_id)
            &&& t.match_index[l.node_id] == Some(l.log.len() as u64)
            &&& t.last_heartbeat_sent == Some(now)
            &&& out.len() == 1
            &&& out[0] == (Packet {
                target: Target::Broadcast,
                message: offers(t, l.log.len() as int),
            })
            &&& l.total_nodes == 1 && counts_rightly(l) && terms_rise(l.log, l.current_term) && (
            l.commit_index is None || l.commit_index->0 < l.log.len()) ==> t.commit_index == Some(
                l.log.len() as u64,
            )
        }),
{
    let (t, out) = l.propose(value, now);
    let m = l.extended(seq![value]);
    assert(m.log =~= l.log.push(Entry { term: l.current_term, value }));
    assert(m.advance_commit().log == m.log);
    assert(offers(t, l.log.len() as int)->entries =~= t.log.skip(l.log.len() as int));
    if l.total_nodes == 1 && counts_rightly(l) && terms_rise(l.log, l.current_term) {
        let q = set![l.node_id];
        assert(q.len() == 1);
        assert(counts_rightly(m));
        assert(terms_rise(m.log, m.current_term));
        assert(all_hold(m, q, l.log.len() as u64));
        lemma_commits(m, q, l.log.len() as u64);
    }
}

/// The values of the proposals that are sent on, in order.
pub open spec fn sent_on<T>(out: Seq<Packet<RaftMsg<T>>>) -> Seq<T>
    decreases out.len(),
{
    if out.len() == 0 {
        Seq::empty()
    } else {
        let rest = sent_on(out.drop_last());
        match out.last().message {
            RaftMsg::Forward { value, .. } => rest.push(value),
            _ => rest,
        }
    }
}

/// The messages that an event leads to.
pub open spec fn said<T>(s: RaftState<T>, event: Event<T>) -> Seq<Packet<RaftMsg<T>>> {
    match event {
        Event::Receive { from, message, now, timeout } => s.receive(from, message, now, timeout).1,
        Event::Tick { now, timeout } => s.tick(now, timeout).1,
        Event::Propose { value, now } => s.propose(value, now).1,
    }
}

/// Messages among which no proposal is sent on.
proof fn lemma_none_sent_on<T>(out: Seq<Packet<RaftMsg<T>>>)
    requires
        forall|i: int| 0 <= i < out.len() ==> !((#[trigger] out[i]).message is Forward),
    ensures
        sent_on(out) == Seq::<T>::empty(),
    decreases out.len(),
{
    if out.len() > 0 {
        lemma_none_sent_on(out.drop_last());
        assert(!(out[out.len() - 1].message is Forward));
    }
}

/// Behind a message that sends nothing on, a list of proposals is sent on as it
/// is.
proof fn lemma_all_sent_on<T>(first: Packet<RaftMsg<T>>, leader: NodeName, values: Seq<T>)
    requires
        !(first.message is Forward),
    ensures
        sent_on(seq![first] + forwards(leader, values)) == values,
    decreases values.len(),
{
    let out = seq![first] + forwards(leader, values);
    if values.len() == 0 {
        assert(out =~= seq![first]);
        lemma_none_sent_on(out);
        assert(values =~= Seq::<T>::empty());
    } else {
        lemma_all_sent_on(first, leader, values.drop_last());
        assert(out.drop_last() =~= seq![first] + forwards(leader, values.drop_last()));
        assert(out.last() == forwards(leader, values)[values.len() - 1]);
        assert(values.drop_last().push(values.last()) =~= values);
    }
}

/// The one message of a list, sent on or not.
proof fn lemma_one_sent_on<T>(p: Packet<RaftMsg<T>>)
    ensures
        sent_on(seq![p]) == (match p.message {
            RaftMsg::Forward { value, .. } => seq![value],
            _ => Seq::empty(),
        }),
{
    let out = seq![p];
    assert(out.drop_last() =~= Seq::<Packet<RaftMsg<T>>>::empty());
    assert(sent_on(out.drop_last()) =~= Seq::<T>::empty());
    assert(out.last() == p);
    if let RaftMsg::Forward { value, .. } = p.message {
        assert(Seq::<T>::empty().push(value) =~= seq![value]);
    }
}

/// The proposals that a node has to do something about at an event: those it has
/// buffered, and the one that comes in. A proposal that was passed on too often is
/// dropped, unless it has reached the leader.
pub open spec fn at_hand<T>(s: RaftState<T>, event: Event<T>) -> Seq<T> {
    match event {
        Event::Propose { value, .. } => s.pending_proposals.push(value),
        Event::Receive { from, message: RaftMsg::Forward { value, hops }, .. } => {
            if s.role != Role::Leader && s.leader is Some && s.leader->0 != from && hops + 1
                >= MAX_FORWARD_HOPS {
                s.pending_proposals
            } else {
                s.pending_proposals.push(value)
            }
        },
        _ => s.pending_proposals,
    }
}

/// What a leader has appended to its log by itself.
pub open spec fn entered<T>(s: RaftState<T>, t: RaftState<T>) -> Seq<T> {
    if t.role == Role::Leader {
        Seq::new(
            (t.log.len() - s.log.len()) as nat,
            |i: int| t.log[s.log.len() + i].value,
        )
    } else {
        Seq::empty()
    }
}

/// What was handed back as lost.
pub open spec fn handed_back<T>(s: RaftState<T>, t: RaftState<T>) -> Seq<T> {
    t.lost_proposals.subrange(s.lost_proposals.len() as int, t.lost_proposals.len() as int)
}

/// No proposal is lost or doubled: whatever happens at a node, each of the
/// proposals at hand stays buffered, is sent on to the leader, enters the node's
/// own log, or is handed back, once and in its order.
pub proof fn no_proposal_is_lost_or_doubled<T>(s: RaftState<T>, event: Event<T>)
    requires
        s.allows(event),
    ensures
        ({
            let t = s.after_event(event);
            &&& t.role == Role::Leader ==> s.log.len() <= t.log.len()
            &&& s.lost_proposals.len() <= t.lost_proposals.len()
            &&& t.lost_proposals.take(s.lost_proposals.len() as int) == s.lost_proposals
            &&& t.pending_proposals + sent_on(said(s, event)) + entered(s, t) + handed_back(s, t)
                == at_hand(s, event)
        }),
{
    let t = s.after_event(event);
    let out = said(s, event);
    let hand = at_hand(s, event);
    let all = t.pending_proposals + sent_on(out) + entered(s, t) + handed_back(s, t);
    assert(s.lost_proposals.take(s.lost_proposals.len() as int) =~= s.lost_proposals);
    match event {
        Event::Receive { from, message, now, timeout } => {
            lemma_receive_hands(s, from, message, now, timeout);
        },
        Event::Tick { now, timeout } => {
            lemma_tick_hands(s, now, timeout);
        },
        Event::Propose { value, now } => {
            lemma_propose_hands(s, value, now);
        },
    }
}

/// What becomes of proposals at a leader that takes them in, or a node that knows
/// a leader or none.
proof fn lemma_propose_hands<T>(s: RaftState<T>, value: T, now: u64)
    ensures
        hands_on(
            s,
            s.propose(value, now).0,
            s.propose(value, now).1,
            s.pending_proposals.push(value),
        ),
{
    assert(s.lost_proposals.take(s.lost_proposals.len() as int) =~= s.lost_proposals);
    let (t, out) = s.propose(value, now);
    let hand = s.pending_proposals.push(value);
    if s.role == Role::Leader {
        let m = s.extended(seq![value]);
        assert(m.advance_commit().log == m.log);
        lemma_none_sent_on(out);
        assert(entered(s, t) =~= seq![value]);
    } else if s.leader is Some {
        lemma_one_sent_on(out[0]);
        assert(out =~= seq![out[0]]);
    } else {
        lemma_none_sent_on(out);
    }
    assert(handed_back(s, t) =~= Seq::<T>::empty());
    assert(t.pending_proposals + sent_on(out) + entered(s, t) + handed_back(s, t) =~= hand);
}

/// Whether the proposals at hand are all accounted for.
spec fn hands_on<T>(
    s: RaftState<T>,
    t: RaftState<T>,
    out: Seq<Packet<RaftMsg<T>>>,
    hand: Seq<T>,
) -> bool {
    &&& t.role == Role::Leader ==> s.log.len() <= t.log.len()
    &&& s.lost_proposals.len() <= t.lost_proposals.len()
    &&& t.lost_proposals.take(s.lost_proposals.len() as int) == s.lost_proposals
    &&& t.pending_proposals + sent_on(out) + entered(s, t) + handed_back(s, t) == hand
}

/// A new leader takes its buffered proposals into its log.
proof fn lemma_lead_hands<T>(s: RaftState<T>, c: RaftState<T>, now: u64)
    requires
        c.log == s.log,
        c.pending_proposals == s.pending_proposals,
        c.lost_proposals == s.lost_proposals,
    ensures
        hands_on(s, c.lead(now).0, c.lead(now).1, s.pending_proposals),
{
    let (t, out) = c.lead(now);
    assert(s.lost_proposals.take(s.lost_proposals.len() as int) =~= s.lost_proposals);
    lemma_none_sent_on(out);
    if c.pending_proposals.len() > 0 {
        let fresh = RaftState {
            role: Role::Leader,
            leader: Some(c.node_id),
            next_index: Map::empty(),
            match_index: Map::empty(),
            pending_proposals: Seq::empty(),
            ..c
        };
        let m = fresh.extended(c.pending_proposals);
        assert(m.advance_commit().log == m.log);
    }
    assert(handed_back(s, t) =~= Seq::<T>::empty());
    assert(entered(s, t) =~= s.pending_proposals);
    assert(t.pending_proposals + sent_on(out) + entered(s, t) + handed_back(s, t)
        =~= s.pending_proposals);
}

proof fn lemma_tick_hands<T>(s: RaftState<T>, now: u64, timeout: u64)
    requires
        s.election_due(now) ==> s.current_term < u64::MAX,
    ensures
        hands_on(s, s.tick(now, timeout).0, s.tick(now, timeout).1, s.pending_proposals),
{
    let (m, out) = s.lapse(now, timeout);
    let t = m.reapplied();
    if s.election_due(now) && 1 >= s.quorum() {
        lemma_lead_hands(s, s.candidacy(now, timeout), now);
    } else {
        lemma_none_sent_on(out);
        assert(m.lost_proposals.take(s.lost_proposals.len() as int) =~= s.lost_proposals);
        assert(entered(s, m) =~= Seq::<T>::empty());
        assert(m.pending_proposals + sent_on(out) + entered(s, m) + handed_back(s, m)
            =~= s.pending_proposals);
    }
    assert(entered(s, t) =~= entered(s, m));
}

proof fn lemma_receive_hands<T>(
    s: RaftState<T>,
    from: NodeName,
    message: RaftMsg<T>,
    now: u64,
    timeout: u64,
)
    ensures
        hands_on(
            s,
            s.receive(from, message, now, timeout).0,
            s.receive(from, message, now, timeout).1,
            at_hand(s, Event::Receive { from, message, now, timeout }),
        ),
{
    let c = s.caught_up(message, now, timeout);
    let (t, out) = s.receive(from, message, now, timeout);
    let hand = at_hand(s, Event::Receive { from, message, now, timeout });
    assert(s.lost_proposals.take(s.lost_proposals.len() as int) =~= s.lost_proposals);
    match message {
        RaftMsg::RequestVote { .. } => {
            lemma_none_sent_on(out);
        },
        RaftMsg::RequestVoteResponse { term, vote_granted } => {
            let m = RaftState { votes_received: c.votes_received.insert(from), ..c };
            lemma_lead_hands(s, m, now);
            if t != m.lead(now).0 || out != m.lead(now).1 {
                lemma_none_sent_on(out);
            }
        },
        RaftMsg::AppendEntries {
            term,
            leader,
            prev_log_index,
            prev_log_term,
            entries,
            leader_commit,
        } => {
            lemma_append_hands(
                s,
                c,
                term,
                leader,
                prev_log_index,
                prev_log_term,
                entries,
                leader_commit,
                now,
                timeout,
            );
        },
        RaftMsg::AppendEntriesResponse { match_index, .. } => {
            lemma_none_sent_on(out);
            if match_index is Some {
                let m = RaftState {
                    match_index: c.match_index.insert(from, match_index),
                    next_index: c.next_index.insert(from, (match_index->0 + 1) as u64),
                    ..c
                };
                assert(m.advance_commit().log == m.log);
            }
        },
        RaftMsg::Forward { value, hops } => {
            if s.role == Role::Leader {
                lemma_propose_hands(s, value, now);
            } else if out.len() == 0 {
                lemma_none_sent_on(out);
            } else {
                lemma_one_sent_on(out[0]);
                assert(out =~= seq![out[0]]);
            }
        },
    }
    if !(message is AppendEntries) && !(message is RequestVoteResponse && t.role == Role::Leader
        && s.role != Role::Leader) && !(message is Forward && s.role == Role::Leader) {
        assert(t.log == s.log);
        assert(entered(s, t) =~= Seq::<T>::empty());
        assert(handed_back(s, t) =~= Seq::<T>::empty());
        assert(t.pending_proposals + sent_on(out) + entered(s, t) + handed_back(s, t) =~= hand);
    }
}

proof fn lemma_append_hands<T>(
    s: RaftState<T>,
    c: RaftState<T>,
    term: u64,
    leader: NodeName,
    prev: Option<u64>,
    prev_term: u64,
    entries: Seq<Entry<T>>,
    commit: Option<u64>,
    now: u64,
    timeout: u64,
)
    requires
        c.log == s.log,
        c.pending_proposals == s.pending_proposals,
        c.lost_proposals == s.lost_proposals,
    ensures
        ({
            let (t, out) = c.on_append_entries(
                term,
                leader,
                prev,
                prev_term,
                entries,
                commit,
                now,
                timeout,
            );
            hands_on(s, t, out, s.pending_proposals)
        }),
{
    let (t, out) = c.on_append_entries(
        term,
        leader,
        prev,
        prev_term,
        entries,
        commit,
        now,
        timeout,
    );
    let d = c.following(leader, now, timeout);
    assert(s.lost_proposals.take(s.lost_proposals.len() as int) =~= s.lost_proposals);
    if turns_down(c, term) || !holds_prev(d.log, prev, prev_term) {
        lemma_none_sent_on(out);
    } else {
        let p = d.placing(term, prev, entries);
        lemma_placing_core(d, term, prev, entries);
        lemma_learn_core(p, commit, verified_index(prev, entries.len() as int));
        assert(out =~= seq![out[0]] + forwards(leader, s.pending_proposals));
        lemma_all_sent_on(out[0], leader, s.pending_proposals);
    }
    assert(entered(s, t) =~= Seq::<T>::empty());
    assert(handed_back(s, t) =~= Seq::<T>::empty());
    assert(t.pending_proposals + sent_on(out) + entered(s, t) + handed_back(s, t)
        =~= s.pending_proposals);
}

/// A proposal is sent on to the leader that the node knows then; one that came
/// from another node counts one more hop, and one of the node's own none.
pub proof fn proposals_are_sent_to_the_leader<T>(s: RaftState<T>, event: Event<T>, k: int)
    requires
        s.allows(event),
        0 <= k < said(s, event).len(),
        said(s, event)[k].message is Forward,
    ensures
        ({
            let t = s.after_event(event);
            let p = said(s, event)[k];
            &&& t.leader is Some
            &&& p.target == Target::Peer(t.leader->0)
            &&& event matches Event::Receive { message: RaftMsg::Forward { hops, .. }, .. }
                ==> p.message->hops == hops + 1
            &&& !(event matches Event::Receive { message: RaftMsg::Forward { .. }, .. })
                ==> p.message->hops == 0
        }),
{
    match event {
        Event::Receive { from, message, now, timeout } => match message {
            RaftMsg::AppendEntries { .. } => {
                lemma_append_sends(s, from, message, now, timeout, k);
            },
            RaftMsg::Forward { .. } => {},
            _ => {
                lemma_says_nothing_on(s, from, message, now, timeout, k);
            },
        },
        Event::Tick { now, timeout } => {
            assert(said(s, event) == s.lapse(now, timeout).1);
        },
        Event::Propose { .. } => {},
    }
}

/// A proposal is not sent back to the node that sent it on, and one that the leader
/// itself sends on, or that finds no leader, waits.
pub proof fn proposals_are_not_sent_back<T>(
    s: RaftState<T>,
    from: NodeName,
    value: T,
    hops: u8,
    now: u64,
    timeout: u64,
)
    requires
        s.role != Role::Leader,
    ensures
        ({
            let (t, out) = s.receive(from, RaftMsg::Forward { value, hops }, now, timeout);
            &&& forall|k: int|
                0 <= k < out.len() ==> (#[trigger] out[k]).target != Target::Peer(from)
            &&& s.leader is None || s.leader == Some(from) ==> out.len() == 0
                && t.pending_proposals == s.pending_proposals.push(value)
            &&& s.leader is Some && s.leader != Some(from) ==> t == s
        }),
{
}

proof fn lemma_says_nothing_on<T>(
    s: RaftState<T>,
    from: NodeName,
    message: RaftMsg<T>,
    now: u64,
    timeout: u64,
    k: int,
)
    requires
        !(message is AppendEntries),
        !(message is Forward),
        0 <= k < s.receive(from, message, now, timeout).1.len(),
    ensures
        !(s.receive(from, message, now, timeout).1[k].message is Forward),
{
}

proof fn lemma_append_sends<T>(
    s: RaftState<T>,
    from: NodeName,
    message: RaftMsg<T>,
    now: u64,
    timeout: u64,
    k: int,
)
    requires
        message is AppendEntries,
        0 <= k < s.receive(from, message, now, timeout).1.len(),
        s.receive(from, message, now, timeout).1[k].message is Forward,
    ensures
        ({
            let (t, out) = s.receive(from, message, now, timeout);
            &&& t.leader is Some
            &&& out[k].target == Target::Peer(t.leader->0)
            &&& out[k].message->hops == 0
        }),
{
    if let RaftMsg::AppendEntries {
        term,
        leader,
        prev_log_index,
        prev_log_term,
        entries,
        leader_commit,
    } = message {
        let c = s.caught_up(message, now, timeout);
        let d = c.following(leader, now, timeout);
        let p = d.placing(term, prev_log_index, entries);
        let (t, out) = s.receive(from, message, now, timeout);
        lemma_placing_core(d, term, prev_log_index, entries);
        lemma_learn_core(
            p,
            leader_commit,
            verified_index(prev_log_index, entries.len() as int),
        );
        if !turns_down(c, term) && holds_prev(d.log, prev_log_index, prev_log_term) {
            assert(s.receive(from, message, now, timeout) == d.accept_append(
                term,
                leader,
                prev_log_index,
                entries,
                leader_commit,
            ));
            if k > 0 {
                assert(out[k] == forwards(leader, s.pending_proposals)[k - 1]);
            }
        }
    }
}

/// Where a message of a later term comes in, the node follows into that term.
pub proof fn later_terms_are_followed<T>(
    s: RaftState<T>,
    from: NodeName,
    message: RaftMsg<T>,
    term: u64,
    now: u64,
    timeout: u64,
)
    requires
        carries_term(message, term),
        term > s.current_term,
    ensures
        ({
            let t = s.receive(from, message, now, timeout).0;
            &&& t.current_term == term
            &&& t.role == Role::Follower
            &&& t.voted_for is None || message is RequestVote
            &&& t.votes_received == Set::<NodeName>::empty()
            &&& now + timeout <= u64::MAX ==> t.election_deadline == now + timeout
            &&& t.leader == (match message {
                RaftMsg::AppendEntries { leader, .. } => Some(leader),
                _ => None,
            })
        }),
{
    if let RaftMsg::AppendEntries { leader, prev_log_index, entries, leader_commit, .. } = message {
        let d = s.caught_up(message, now, timeout).following(leader, now, timeout);
        lemma_placing_core(d, term, prev_log_index, entries);
        lemma_learn_core(
            d.placing(term, prev_log_index, entries),
            leader_commit,
            verified_index(prev_log_index, entries.len() as int),
        );
    }
}

/// Answers count only for the node that asked, in the term it asked in: a vote for a
/// candidate, a word on an append for a leader. Everything else changes nothing and
/// is not answered.
pub proof fn stray_answers_change_nothing<T>(
    s: RaftState<T>,
    from: NodeName,
    message: RaftMsg<T>,
    now: u64,
    timeout: u64,
)
    requires
        match message {
            RaftMsg::RequestVoteResponse { term, vote_granted } => term < s.current_term || (term
                == s.current_term && (s.role != Role::Candidate || !vote_granted)),
            RaftMsg::AppendEntriesResponse { term, success, match_index, .. } => term
                < s.current_term || (term == s.current_term && (s.role != Role::Leader || (success
                && match_index is None))),
            _ => false,
        },
    ensures
        s.receive(from, message, now, timeout).0 == s,
        s.receive(from, message, now, timeout).1.len() == 0,
{
}

/// An acknowledgement tells a leader how far a follower has come: that is where the
/// next append goes on from. One that names more than the leader has is ignored.
pub proof fn acknowledgements_move_positions<T>(
    l: RaftState<T>,
    from: NodeName,
    index: u64,
    now: u64,
    timeout: u64,
)
    requires
        l.role == Role::Leader,
        l.log.len() <= u64::MAX,
    ensures
        ({
            let ack = RaftMsg::AppendEntriesResponse {
                term: l.current_term,
                success: true,
                match_index: Some(index),
                conflict_term: None,
                conflict_index: None,
            };
            let (t, out) = l.receive(from, ack, now, timeout);
            &&& out.len() == 0
            &&& t.log == l.log && t.role == Role::Leader && t.current_term == l.current_term
            &&& index < l.log.len() ==> t.next_index == l.next_index.insert(
                from,
                (index + 1) as u64,
            ) && t.match_index == l.match_index.insert(from, Some(index))
            &&& index >= l.log.len() ==> t == l
        }),
{
}

/// A finite set of slots that is not empty has a highest one.
proof fn lemma_has_highest(slots: Set<u64>)
    requires
        slots.finite(),
        slots.len() > 0,
    ensures
        exists|m: u64| is_highest(slots, m),
    decreases slots.len(),
{
    let x = slots.choose();
    let rest = slots.remove(x);
    if rest.len() == 0 {
        assert(rest =~= Set::empty());
        assert forall|y: u64| #[trigger] slots.contains(y) implies y <= x by {
            if y != x {
                assert(rest.contains(y));
            }
        }
        assert(is_highest(slots, x));
    } else {
        lemma_has_highest(rest);
        let m = choose|m: u64| is_highest(rest, m);
        let top = if x > m {
            x
        } else {
            m
        };
        assert forall|y: u64| #[trigger] slots.contains(y) implies y <= top by {
            if y != x {
                assert(rest.contains(y));
            }
        }
        assert(slots.contains(m));
        assert(is_highest(slots, top));
    }
}

/// Whether an index is what a restart may count as committed: what was saved as
/// committed or decided, or the end of the log where that lies behind it.
pub open spec fn may_be_committed(
    c: u64,
    len: int,
    decided: Set<u64>,
    saved_index: Option<u64>,
) -> bool {
    ||| saved_index == Some(c)
    ||| decided.contains(c)
    ||| c == len - 1 && (saved_index is Some && saved_index->0 > c || exists|d: u64|
        d > c && #[trigger] decided.contains(d))
}

/// A restart takes up what was saved: term, vote and log as they were, everything
/// saved as committed or decided that the log holds is committed, and exactly what
/// was decided is applied. The node follows, unless it is alone and had voted for
/// itself.
pub proof fn restarts_take_up_what_was_saved<T>(
    s: RaftState<T>,
    term: u64,
    voted_for: Option<NodeName>,
    log: Seq<Entry<T>>,
    decided: Set<u64>,
    saved_index: Option<u64>,
    now: u64,
    timeout: u64,
)
    requires
        log.len() <= u64::MAX,
        decided.finite(),
    ensures
        ({
            let t = s.restored(term, voted_for, log, decided, saved_index, now, timeout);
            let alone = s.total_nodes == 1 && term > 0 && voted_for == Some(s.node_id);
            &&& t.node_id == s.node_id && t.total_nodes == s.total_nodes && t.config == s.config
            &&& t.current_term == term && t.voted_for == voted_for && t.log == log
            &&& now + timeout <= u64::MAX ==> t.election_deadline == now + timeout
            &&& t.role == (if alone {
                Role::Leader
            } else {
                Role::Follower
            })
            &&& t.leader == (if alone {
                Some(s.node_id)
            } else {
                None
            })
            &&& forall|d: u64| #[trigger]
                decided.contains(d) ==> t.last_applied is Some && t.last_applied->0 >= d
            &&& t.last_applied matches Some(a) ==> decided.contains(a)
            &&& forall|d: u64| #[trigger]
                decided.contains(d) && d < log.len() ==> t.commit_index is Some
                    && t.commit_index->0 >= d
            &&& saved_index is Some && saved_index->0 < log.len() ==> t.commit_index is Some
                && t.commit_index->0 >= saved_index->0
            &&& t.commit_index matches Some(c) ==> c < log.len() && may_be_committed(
                c,
                log.len() as int,
                decided,
                saved_index,
            )
            &&& log.len() > 0 && (saved_index is Some || decided.len() > 0) ==> t.commit_index
                is Some
            &&& alone && log.len() > 0 ==> t.match_index.contains_key(s.node_id)
                && t.match_index[s.node_id] == Some((log.len() - 1) as u64)
            &&& t.pending_proposals.len() == 0 && t.lost_proposals.len() == 0
                && t.pending_decisions.len() == 0 && t.clean()
        }),
{
    if decided.len() > 0 {
        lemma_has_highest(decided);
        let m = highest(decided)->0;
        assert(is_highest(decided, m));
        assert(decided.contains(m));
    } else {
        assert(decided =~= Set::empty());
        if exists|m: u64| is_highest(decided, m) {
            let m = choose|m: u64| is_highest(decided, m);
            assert(decided.contains(m));
        }
    }
    assert forall|d: u64| decided.contains(d) implies decided.len() > 0 by {
        assert(decided != Set::<u64>::empty());
    }
}

/// A node that was never started before is a follower that knows nothing and waits
/// for its first timeout.
pub proof fn fresh_nodes_know_nothing<T>(
    node: NodeName,
    total: usize,
    config: crate::config::RaftConfig,
    at: u64,
    now: u64,
    timeout: u64,
)
    ensures
        ({
            let s = RaftState::<T>::initial(node, total, config, at);
            &&& s.node_id == node && s.total_nodes == total && s.config == config
            &&& s.current_term == 0 && s.voted_for is None && s.log.len() == 0
            &&& s.commit_index is None && s.last_applied is None
            &&& s.role == Role::Follower && s.leader is None
            &&& s.pending_proposals.len() == 0 && s.lost_proposals.len() == 0
            &&& s.pending_decisions.len() == 0 && s.clean()
            &&& now < at ==> s.tick(now, timeout) == (s, Seq::<Packet<RaftMsg<T>>>::empty())
        }),
{
}

/// Whether a message is one of a term.
pub open spec fn carries_term<T>(message: RaftMsg<T>, term: u64) -> bool {
    match message {
        RaftMsg::RequestVote { term: t, .. } => t == term,
        RaftMsg::RequestVoteResponse { term: t, .. } => t == term,
        RaftMsg::AppendEntries { term: t, .. } => t == term,
        RaftMsg::AppendEntriesResponse { term: t, .. } => t == term,
        RaftMsg::Forward { .. } => false,
    }
}

/// A message of an earlier term changes nothing.
pub proof fn earlier_terms_change_nothing<T>(
    s: RaftState<T>,
    from: NodeName,
    message: RaftMsg<T>,
    term: u64,
    now: u64,
    timeout: u64,
)
    requires
        carries_term(message, term),
        term < s.current_term,
    ensures
        s.receive(from, message, now, timeout).0 == s,
{
}

/// Whether no more is applied than is committed, and no more committed than there
/// is.
pub open spec fn applies_rightly<T>(s: RaftState<T>) -> bool {
    &&& s.commit_index matches Some(c) ==> c < s.log.len()
    &&& s.last_applied matches Some(a) ==> s.commit_index is Some && a <= s.commit_index->0
}

/// Whether what `t` has queued more than `s` are the entries behind those that
/// were applied, one by one, each at its slot, as far as `t` has applied.
pub open spec fn queues_on<T>(s: RaftState<T>, t: RaftState<T>) -> bool {
    let first = match s.last_applied {
        Some(a) => a + 1,
        None => 0,
    };
    let more = t.pending_decisions.len() - s.pending_decisions.len();
    &&& more >= 0
    &&& t.pending_decisions.take(s.pending_decisions.len() as int) == s.pending_decisions
    &&& forall|i: int|
        0 <= i < more ==> first + i < t.log.len() && #[trigger] t.pending_decisions[(
        s.pending_decisions.len() + i)] == ((first + i) as u64, t.log[first + i].value)
    &&& more == 0 ==> t.last_applied == s.last_applied
    &&& more > 0 ==> t.last_applied == Some((first + more - 1) as u64)
}

/// Entries are queued for delivery in the order of the log, each once: whatever
/// happens, what is queued are the entries right behind the last one applied, and
/// where the commit index moves, all are applied up to it.
pub proof fn entries_are_applied_in_order<T>(s: RaftState<T>, event: Event<T>)
    requires
        s.allows(event),
        applies_rightly(s),
        s.log.len() <= u64::MAX,
        s.after_event(event).log.len() <= u64::MAX,
        s.commit_index matches Some(c) ==> c < s.after_event(event).log.len(),
    ensures
        ({
            let t = s.after_event(event);
            &&& queues_on(s, t)
            &&& t.commit_index != s.commit_index ==> t.last_applied == t.commit_index
            &&& event is Tick ==> t.last_applied == t.commit_index
        }),
{
    let t = s.after_event(event);
    assert(s.pending_decisions.take(s.pending_decisions.len() as int) =~= s.pending_decisions);
    match event {
        Event::Receive { from, message, now, timeout } => {
            lemma_receive_queues(s, from, message, now, timeout);
        },
        Event::Tick { now, timeout } => {
            let m = s.lapse(now, timeout).0;
            if s.election_due(now) && 1 >= s.quorum() {
                lemma_lead_queues(s, s.candidacy(now, timeout), now);
            }
            lemma_reapplied_queues(s, m);
        },
        Event::Propose { value, now } => {
            lemma_propose_queues(s, value, now);
        },
    }
}

/// Committing further queues what is not applied yet.
proof fn lemma_commit_queues<T>(s: RaftState<T>, m: RaftState<T>, target: u64)
    requires
        applies_rightly(s),
        m.commit_index == s.commit_index,
        m.last_applied == s.last_applied,
        m.pending_decisions == s.pending_decisions,
        target < m.log.len() <= u64::MAX,
        m.beyond_commit(target),
    ensures
        queues_on(s, m.committed_to(target)),
{
    let t = m.committed_to(target);
    assert(t.pending_decisions.take(s.pending_decisions.len() as int) =~= s.pending_decisions);
}

proof fn lemma_advance_queues<T>(s: RaftState<T>, m: RaftState<T>)
    requires
        applies_rightly(s),
        m.commit_index == s.commit_index,
        m.last_applied == s.last_applied,
        m.pending_decisions == s.pending_decisions,
        m.log.len() <= u64::MAX,
    ensures
        queues_on(s, m.advance_commit()),
        m.advance_commit().commit_index != s.commit_index ==> m.advance_commit().last_applied
            == m.advance_commit().commit_index,
        m.advance_commit().last_applied == m.advance_commit().commit_index || m.advance_commit()
            == m,
        m.advance_commit().log == m.log,
        m.advance_commit().commit_index matches Some(c) ==> s.commit_index == Some(c) || c
            < m.log.len(),
{
    assert(s.pending_decisions.take(s.pending_decisions.len() as int) =~= s.pending_decisions);
    if let Some(c) = quorum_index(m.match_index, m.quorum()) {
        if c < m.log.len() && m.beyond_commit(c) {
            lemma_commit_queues(s, m, c);
        }
    }
}

proof fn lemma_lead_queues<T>(s: RaftState<T>, c: RaftState<T>, now: u64)
    requires
        applies_rightly(s),
        c.commit_index == s.commit_index,
        c.last_applied == s.last_applied,
        c.pending_decisions == s.pending_decisions,
        c.log == s.log,
        c.lead(now).0.log.len() <= u64::MAX,
    ensures
        queues_on(s, c.lead(now).0),
        c.lead(now).0.commit_index != s.commit_index ==> c.lead(now).0.last_applied == c.lead(
            now,
        ).0.commit_index,
        applies_rightly(c.lead(now).0),
        c.lead(now).0.last_applied == c.lead(now).0.commit_index || (c.lead(now).0.commit_index
            == s.commit_index && c.lead(now).0.last_applied == s.last_applied && c.lead(
            now,
        ).0.pending_decisions == s.pending_decisions),
{
    assert(s.pending_decisions.take(s.pending_decisions.len() as int) =~= s.pending_decisions);
    let fresh = RaftState {
        role: Role::Leader,
        leader: Some(c.node_id),
        next_index: Map::empty(),
        match_index: Map::empty(),
        pending_proposals: Seq::empty(),
        ..c
    };
    if c.pending_proposals.len() > 0 {
        let m = fresh.extended(c.pending_proposals);
        assert(m.advance_commit().log == m.log);
        lemma_advance_queues(s, m);
    }
}

proof fn lemma_reapplied_queues<T>(s: RaftState<T>, m: RaftState<T>)
    requires
        applies_rightly(s),
        queues_on(s, m),
        m.last_applied == m.commit_index || (m.commit_index == s.commit_index && m.last_applied
            == s.last_applied && m.pending_decisions == s.pending_decisions),
        m.commit_index matches Some(c) ==> c < m.log.len(),
        m.log.len() <= u64::MAX,
    ensures
        queues_on(s, m.reapplied()),
        m.reapplied().last_applied == m.commit_index,
{
    let t = m.reapplied();
    let n = s.pending_decisions.len() as int;
    if t.pending_decisions != m.pending_decisions {
        assert(t.pending_decisions.take(n) =~= s.pending_decisions) by {
            assert(m.pending_decisions.take(n) == s.pending_decisions);
            assert forall|i: int| 0 <= i < n implies t.pending_decisions[i]
                == s.pending_decisions[i] by {
                assert(m.pending_decisions.take(n)[i] == m.pending_decisions[i]);
            }
        }
    }
}

proof fn lemma_propose_queues<T>(s: RaftState<T>, value: T, now: u64)
    requires
        applies_rightly(s),
        s.propose(value, now).0.log.len() <= u64::MAX,
    ensures
        queues_on(s, s.propose(value, now).0),
        s.propose(value, now).0.commit_index != s.commit_index ==> s.propose(
            value,
            now,
        ).0.last_applied == s.propose(value, now).0.commit_index,
{
    assert(s.pending_decisions.take(s.pending_decisions.len() as int) =~= s.pending_decisions);
    if s.role == Role::Leader {
        let m = s.extended(seq![value]);
        assert(m.advance_commit().log == m.log);
        lemma_advance_queues(s, m);
    }
}

proof fn lemma_receive_queues<T>(
    s: RaftState<T>,
    from: NodeName,
    message: RaftMsg<T>,
    now: u64,
    timeout: u64,
)
    requires
        applies_rightly(s),
        s.log.len() <= u64::MAX,
        s.receive(from, message, now, timeout).0.log.len() <= u64::MAX,
    ensures
        queues_on(s, s.receive(from, message, now, timeout).0),
        s.receive(from, message, now, timeout).0.commit_index != s.commit_index ==> s.receive(
            from,
            message,
            now,
            timeout,
        ).0.last_applied == s.receive(from, message, now, timeout).0.commit_index,
{
    let c = s.caught_up(message, now, timeout);
    let t = s.receive(from, message, now, timeout).0;
    assert(s.pending_decisions.take(s.pending_decisions.len() as int) =~= s.pending_decisions);
    match message {
        RaftMsg::RequestVoteResponse { term, vote_granted } => {
            let m = RaftState { votes_received: c.votes_received.insert(from), ..c };
            if t.role == Role::Leader && c.role == Role::Candidate {
                lemma_lead_queues(s, m, now);
            }
        },
        RaftMsg::AppendEntries {
            term,
            leader,
            prev_log_index,
            prev_log_term,
            entries,
            leader_commit,
        } => {
            let d = c.following(leader, now, timeout);
            if !turns_down(c, term) && holds_prev(d.log, prev_log_index, prev_log_term) {
                lemma_accept_queues(s, d, term, leader, prev_log_index, entries, leader_commit);
            }
        },
        RaftMsg::AppendEntriesResponse { match_index, .. } => {
            if match_index is Some {
                let m = RaftState {
                    match_index: c.match_index.insert(from, match_index),
                    next_index: c.next_index.insert(from, (match_index->0 + 1) as u64),
                    ..c
                };
                lemma_advance_queues(s, m);
            }
        },
        RaftMsg::Forward { value, hops } => {
            if s.role == Role::Leader {
                lemma_propose_queues(s, value, now);
            }
        },
        _ => {},
    }
}

proof fn lemma_accept_queues<T>(
    s: RaftState<T>,
    d: RaftState<T>,
    term: u64,
    leader: NodeName,
    prev: Option<u64>,
    entries: Seq<Entry<T>>,
    commit: Option<u64>,
)
    requires
        applies_rightly(s),
        d.commit_index == s.commit_index,
        d.last_applied == s.last_applied,
        d.pending_decisions == s.pending_decisions,
        d.log.len() <= u64::MAX,
        prev matches Some(p) ==> p < d.log.len(),
        d.accept_append(term, leader, prev, entries, commit).0.log.len() <= u64::MAX,
    ensures
        queues_on(s, d.accept_append(term, leader, prev, entries, commit).0),
        d.accept_append(term, leader, prev, entries, commit).0.commit_index != s.commit_index
            ==> d.accept_append(term, leader, prev, entries, commit).0.last_applied
            == d.accept_append(term, leader, prev, entries, commit).0.commit_index,
{
    assert(s.pending_decisions.take(s.pending_decisions.len() as int) =~= s.pending_decisions);
    let p = d.placing(term, prev, entries);
    let verified = verified_index(prev, entries.len() as int);
    let start = after(prev);
    lemma_placing_core(d, term, prev, entries);
    lemma_learn_core(p, commit, verified);
    lemma_held_bounds(d.log, start, entries, 0);
    let k = held(d.log, start, entries, 0);
    if k > 0 {
        assert(held_at(d.log, start, entries, k - 1));
    }
    assert(start + entries.len() <= p.log.len());
    if commit is Some && verified is Some {
        let target = if commit->0 <= verified->0 {
            commit->0
        } else {
            verified->0
        };
        if p.beyond_commit(target) {
            lemma_commit_queues(s, p, target);
        }
    }
}

} // verus!
