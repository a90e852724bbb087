//! What a cluster of Raft nodes decides: no slot is ever decided with two
//! values.
use crate::config::NodeName;
use crate::message::{Entry, Packet, RaftMsg};
use crate::quorum::{is_quorum, quorums_meet};
use crate::raft_cluster::{
    acknowledges, agrees, applied_by, commit_kept, counted, extended_by, extends, follows_on,
    gives_way, is_ack, learned, led_from, lemma_action_inv, lemma_agrees_grown, lemma_init_inv,
    lemma_led_ok, lemma_on_append, lemma_on_append_response, lemma_on_cut, lemma_on_forward,
    lemma_on_lapse, lemma_on_lone_cut, lemma_on_propose, lemma_on_reapply, lemma_on_request_vote,
    lemma_on_restart, lemma_on_vote_response, lemma_passive, lemma_performed_grows, lemma_stand,
    lemma_take_over, lemma_tick_in_two, lemma_win, node_of, passive, restores, run, stands,
    takes_over, votes_for, wins, Action, Cluster, Envelope,
};
use crate::raft_laws::not_before;
use crate::raft_model::{
    after, decisions_between, highest, is_highest, last_index, last_term, replicated_on, up_to_date,
    verified_index, RaftState, Role,
};
use vstd::prelude::*;

verus! {

impl<T> Cluster<T> {
    /// The leader of term `t` made the entry at `i` of its log.
    pub open spec fn own_entry(self, t: u64, i: u64) -> bool {
        &&& self.leaders.contains_key(t)
        &&& i < self.led[t].len()
        &&& self.led[t][i as int].term == t
    }

    /// A node held the log of the leader of `t` up to `i`, at least.
    pub open spec fn acked(self, q: NodeName, t: u64, i: u64) -> bool {
        exists|m: u64| m >= i && #[trigger] self.acks.contains((q, t, m))
    }

    /// A majority went on to later terms without holding the log of the leader
    /// of `t` up to `i`.
    pub open spec fn blocked(self, t: u64, i: u64) -> bool {
        exists|q: Set<NodeName>| #[trigger]
            is_quorum(self.members, q) && self.went_on(q, t, i)
    }

    pub open spec fn went_on(self, q: Set<NodeName>, t: u64, i: u64) -> bool {
        forall|v: NodeName| #[trigger]
            q.contains(v) ==> self.nodes[v].current_term > t && !self.acked(v, t, i)
    }

    /// A majority held the log of the leader of `t` up to `i`, an entry of the
    /// leader's own.
    pub open spec fn chosen(self, t: u64, i: u64) -> bool {
        &&& self.own_entry(t, i)
        &&& exists|q: Set<NodeName>| #[trigger]
            is_quorum(self.members, q) && self.all_acked(q, t, i)
    }

    pub open spec fn all_acked(self, q: Set<NodeName>, t: u64, i: u64) -> bool {
        forall|v: NodeName| #[trigger] q.contains(v) ==> self.acked(v, t, i)
    }

    /// A log holds entry `i` of the leader of `t`, or that can no longer be
    /// chosen.
    pub open spec fn safe(self, log: Seq<Entry<T>>, t: u64, i: u64) -> bool {
        agrees(log, self.led[t], i as int) || self.blocked(t, i)
    }

    /// A log is chosen up to `x`, by a leader of a term up to `bound`.
    pub open spec fn covered(self, log: Seq<Entry<T>>, x: u64, bound: u64) -> bool {
        exists|t: u64, i: u64| #[trigger]
            self.chosen(t, i) && t <= bound && x <= i && agrees(log, self.led[t], x as int)
    }

    /// What a node acknowledged, it holds.
    pub open spec fn acks_kept(self) -> bool {
        forall|q: NodeName, t: u64, i: u64| #[trigger]
            self.acked(q, t, i) && self.own_entry(t, i) ==> self.safe(self.nodes[q].log, t, i)
    }

    /// What a voter had acknowledged, the candidate holds.
    pub open spec fn votes_kept(self) -> bool {
        forall|v: NodeName, t2: u64, t: u64, i: u64|
            #![trigger self.votes.contains_key((v, t2)), self.acked(v, t, i)]
            self.votes.contains_key((v, t2)) && t < t2 && self.acked(v, t, i) && self.own_entry(
                t,
                i,
            ) ==> self.safe(self.stood[(self.votes[(v, t2)], t2)], t, i)
    }

    /// What can be chosen in an earlier term, a leader was elected with.
    pub open spec fn leaders_kept(self) -> bool {
        forall|t2: u64, t: u64, i: u64|
            #![trigger self.leaders.contains_key(t2), self.own_entry(t, i)]
            self.leaders.contains_key(t2) && t < t2 && self.own_entry(t, i) ==> self.safe(
                self.base(t2),
                t,
                i,
            )
    }

    /// A leader's count of acknowledgements is right.
    pub open spec fn match_ok(self, n: NodeName) -> bool {
        let s = self.nodes[n];
        s.role == Role::Leader ==> forall|q: NodeName| #[trigger]
            s.match_index.contains_key(q) && s.match_index[q] is Some ==> self.members.contains(q)
                && self.acks.contains((q, s.current_term, s.match_index[q]->0))
    }

    /// What a node committed is chosen, and it applied no more than that.
    pub open spec fn commit_ok(self, n: NodeName) -> bool {
        let s = self.nodes[n];
        &&& s.commit_index matches Some(x) ==> x < s.log.len() && self.covered(
            s.log,
            x,
            s.current_term,
        )
        &&& s.last_applied matches Some(a) ==> s.commit_index is Some && a <= s.commit_index->0
        &&& forall|k: int|
            0 <= k < s.pending_decisions.len() ==> self.decided.contains(
                (n, (#[trigger] s.pending_decisions[k]).0, s.pending_decisions[k].1),
            )
    }

    /// What a leader announces as committed is chosen.
    pub open spec fn announced_ok(self, e: Envelope<T>) -> bool {
        e.msg matches RaftMsg::AppendEntries { term, leader_commit, .. } ==> (
        leader_commit matches Some(x) ==> self.covered(self.led[term], x, term))
    }

    /// What was delivered is chosen.
    pub open spec fn decision_ok(self, slot: u64, value: T) -> bool {
        exists|t: u64, i: u64| #[trigger]
            self.chosen(t, i) && slot <= i && self.led[t][slot as int].value == value
    }

    /// What holds in addition of what is committed.
    pub open spec fn commit_inv(self) -> bool {
        &&& self.acks_kept()
        &&& self.votes_kept()
        &&& self.leaders_kept()
        &&& forall|n: NodeName| #[trigger]
            self.members.contains(n) ==> self.match_ok(n) && self.commit_ok(n)
        &&& forall|e: Envelope<T>| #[trigger] self.net.contains(e) ==> self.announced_ok(e)
        &&& forall|d: (NodeName, u64, T)| #[trigger]
            self.decided.contains(d) ==> self.decision_ok(d.1, d.2)
        &&& forall|n: NodeName, t: u64| #[trigger]
            self.votes.contains_key((n, t)) ==> self.stood.contains_key((self.votes[(n, t)], t))
    }
}

/// New acknowledgements are those of the node that acted, in its term.
spec fn acks_by<T>(c: Cluster<T>, d: Cluster<T>, n: NodeName) -> bool {
    forall|a: (NodeName, u64, u64)| #[trigger]
        d.acks.contains(a) ==> c.acks.contains(a) || (a.0 == n && a.1 == d.nodes[n].current_term)
}

proof fn lemma_acked_before<T>(c: Cluster<T>, d: Cluster<T>, n: NodeName, q: NodeName, t: u64, i: u64)
    requires
        acks_by(c, d, n),
        d.acked(q, t, i),
        q != n || t != d.nodes[n].current_term,
    ensures
        c.acked(q, t, i),
{
    let m = choose|m: u64| m >= i && #[trigger] d.acks.contains((q, t, m));
    assert(c.acks.contains((q, t, m)));
}

proof fn lemma_acked_grown<T>(c: Cluster<T>, d: Cluster<T>, q: NodeName, t: u64, i: u64)
    requires
        c.grows_to(d),
        c.acked(q, t, i),
    ensures
        d.acked(q, t, i),
{
    let m = choose|m: u64| m >= i && #[trigger] c.acks.contains((q, t, m));
    assert(d.acks.contains((q, t, m)));
}

proof fn lemma_own_grown<T>(c: Cluster<T>, d: Cluster<T>, t: u64, i: u64)
    requires
        c.grows_to(d),
        c.leaders.contains_key(t),
        i < c.led[t].len(),
    ensures
        d.own_entry(t, i) == c.own_entry(t, i),
        d.led[t][i as int] == c.led[t][i as int],
{
    assert(d.led[t].take(c.led[t].len() as int)[i as int] == d.led[t][i as int]);
}

proof fn lemma_blocked_grown<T>(c: Cluster<T>, d: Cluster<T>, n: NodeName, t: u64, i: u64)
    requires
        c.grows_to(d),
        acks_by(c, d, n),
        c.blocked(t, i),
        c.members.contains(n),
    ensures
        d.blocked(t, i),
{
    let q = choose|q: Set<NodeName>| #[trigger] is_quorum(c.members, q) && c.went_on(q, t, i);
    assert(is_quorum(d.members, q));
    assert forall|v: NodeName| #[trigger] q.contains(v) implies d.nodes[v].current_term > t
        && !d.acked(v, t, i) by {
        assert(c.nodes[v].current_term > t);
        assert(c.members.contains(v));
        if d.acked(v, t, i) {
            lemma_acked_before(c, d, n, v, t, i);
        }
    }
    assert(d.went_on(q, t, i));
}

proof fn lemma_safe_grown<T>(
    c: Cluster<T>,
    d: Cluster<T>,
    n: NodeName,
    log: Seq<Entry<T>>,
    t: u64,
    i: u64,
)
    requires
        c.grows_to(d),
        acks_by(c, d, n),
        c.members.contains(n),
        c.leaders.contains_key(t),
        c.safe(log, t, i),
    ensures
        d.safe(log, t, i),
{
    if c.blocked(t, i) {
        lemma_blocked_grown(c, d, n, t, i);
    } else {
        lemma_agrees_grown(log, c.led[t], d.led[t], i as int);
    }
}

proof fn lemma_chosen_grown<T>(c: Cluster<T>, d: Cluster<T>, t: u64, i: u64)
    requires
        c.grows_to(d),
        c.chosen(t, i),
    ensures
        d.chosen(t, i),
{
    lemma_own_grown(c, d, t, i);
    let q = choose|q: Set<NodeName>| #[trigger] is_quorum(c.members, q) && c.all_acked(q, t, i);
    assert(is_quorum(d.members, q));
    assert forall|v: NodeName| #[trigger] q.contains(v) implies d.acked(v, t, i) by {
        lemma_acked_grown(c, d, v, t, i);
    }
    assert(d.all_acked(q, t, i));
}

proof fn lemma_covered_grown<T>(
    c: Cluster<T>,
    d: Cluster<T>,
    log: Seq<Entry<T>>,
    x: u64,
    bound: u64,
    later: u64,
)
    requires
        c.grows_to(d),
        c.covered(log, x, bound),
        bound <= later,
    ensures
        d.covered(log, x, later),
{
    let (t, i) = choose|t: u64, i: u64| #[trigger]
        c.chosen(t, i) && t <= bound && x <= i && agrees(log, c.led[t], x as int);
    lemma_chosen_grown(c, d, t, i);
    lemma_agrees_grown(log, c.led[t], d.led[t], x as int);
}

/// A log that starts with a covered one is covered.
proof fn lemma_covered_longer<T>(
    c: Cluster<T>,
    log: Seq<Entry<T>>,
    longer: Seq<Entry<T>>,
    x: u64,
    bound: u64,
)
    requires
        c.covered(log, x, bound),
        x < longer.len(),
        x < log.len(),
        longer.take(x + 1) == log.take(x + 1),
    ensures
        c.covered(longer, x, bound),
{
    let (t, i) = choose|t: u64, i: u64| #[trigger]
        c.chosen(t, i) && t <= bound && x <= i && agrees(log, c.led[t], x as int);
    assert(agrees(longer, c.led[t], x as int));
}

/// What is chosen is not blocked: the two majorities share a node.
proof fn lemma_chosen_not_blocked<T>(c: Cluster<T>, t: u64, i: u64)
    requires
        c.inv(),
        c.chosen(t, i),
    ensures
        !c.blocked(t, i),
{
    if c.blocked(t, i) {
        let a = choose|q: Set<NodeName>| #[trigger] is_quorum(c.members, q) && c.all_acked(q, t, i);
        let b = choose|q: Set<NodeName>| #[trigger] is_quorum(c.members, q) && c.went_on(q, t, i);
        let v = quorums_meet(c.members, a, b);
        assert(c.acked(v, t, i));
        assert(!c.acked(v, t, i));
    }
}

/// An acknowledged index lies within the leader's log.
proof fn lemma_acked_within<T>(c: Cluster<T>, q: NodeName, t: u64, i: u64)
    requires
        c.inv(),
        c.acked(q, t, i),
    ensures
        c.leaders.contains_key(t),
        i < c.led[t].len(),
        t <= c.nodes[q].current_term,
        c.members.contains(q),
{
    let m = choose|m: u64| m >= i && #[trigger] c.acks.contains((q, t, m));
    assert(c.ack_ok((q, t, m)));
}

/// The voters of a leader went on to its term.
proof fn lemma_voters_went_on<T>(c: Cluster<T>, t2: u64) -> (q: Set<NodeName>)
    requires
        c.inv(),
        c.leaders.contains_key(t2),
    ensures
        is_quorum(c.members, q),
        forall|v: NodeName| #[trigger] q.contains(v) ==> c.nodes[v].current_term >= t2
            && c.members.contains(v) && c.voted(v, t2, c.leaders[t2]),
{
    assert(c.leader_ok(t2));
    let q = choose|q: Set<NodeName>| #[trigger]
        is_quorum(c.members, q) && forall|v: NodeName| #[trigger]
            q.contains(v) ==> c.voted(v, t2, c.leaders[t2]);
    assert forall|v: NodeName| #[trigger] q.contains(v) implies c.nodes[v].current_term >= t2
        && c.members.contains(v) && c.voted(v, t2, c.leaders[t2]) by {
        assert(c.voted(v, t2, c.leaders[t2]));
        assert(c.votes.contains_key((v, t2)));
        assert(c.members.contains(v));
        assert(c.node_ok(v));
    }
    q
}

/// What has to hold at the node that acted for the commit invariant to hold
/// after its action.
spec fn acts_safely<T>(
    c: Cluster<T>,
    n: NodeName,
    s: RaftState<T>,
    out: Seq<Packet<RaftMsg<T>>>,
) -> bool {
    let d = c.performed(n, s, out);
    let t2 = s.current_term;
    &&& forall|t: u64, i: u64| #[trigger]
        d.acked(n, t, i) && d.own_entry(t, i) ==> d.safe(s.log, t, i)
    &&& d.votes.contains_key((n, t2)) ==> d.stood.contains_key((d.votes[(n, t2)], t2))
    &&& !c.votes.contains_key((n, t2)) && d.votes.contains_key((n, t2)) ==> forall|
        t: u64,
        i: u64,
    | #[trigger]
        d.acked(n, t, i) && t < t2 && d.own_entry(t, i) ==> d.safe(
            d.stood[(d.votes[(n, t2)], t2)],
            t,
            i,
        )
    &&& s.role == Role::Leader && !c.leaders.contains_key(t2) ==> forall|t: u64, i: u64|
        t < t2 && #[trigger] d.own_entry(t, i) ==> d.safe(d.base(t2), t, i)
    &&& d.match_ok(n)
    &&& d.commit_ok(n)
    &&& forall|k: int|
        0 <= k < out.len() ==> d.announced_ok(
            Envelope { src: n, dst: (#[trigger] out[k]).target, msg: out[k].message },
        )
    &&& forall|k: int|
        0 <= k < s.pending_decisions.len() ==> d.decision_ok(
            (#[trigger] s.pending_decisions[k]).0,
            s.pending_decisions[k].1,
        )
}

proof fn lemma_acks_by<T>(
    c: Cluster<T>,
    n: NodeName,
    s: RaftState<T>,
    out: Seq<Packet<RaftMsg<T>>>,
)
    ensures
        acks_by(c, c.performed(n, s, out), n),
{
}

/// An entry that a leader has just made can no longer be chosen where a later
/// leader is already elected.
proof fn lemma_new_entry_blocked<T>(
    c: Cluster<T>,
    d: Cluster<T>,
    n: NodeName,
    t2: u64,
    t: u64,
    i: u64,
)
    requires
        c.inv(),
        d.inv(),
        c.grows_to(d),
        c.acted_only(d, n),
        acks_by(c, d, n),
        c.members.contains(n),
        c.leaders.contains_key(t2),
        t < t2,
        d.own_entry(t, i),
        !(c.leaders.contains_key(t) && i < c.led[t].len()),
    ensures
        d.blocked(t, i),
{
    // Only the node that acted made entries, and it is still in term t.
    let q = lemma_voters_went_on(c, t2);
    assert(is_quorum(d.members, q));
    assert forall|v: NodeName| #[trigger] q.contains(v) implies d.nodes[v].current_term > t
        && !d.acked(v, t, i) by {
        assert(c.nodes[v].current_term >= t2);
        assert(c.members.contains(v));
        if d.acked(v, t, i) {
            if v == n && t == d.nodes[n].current_term {
                assert(d.nodes[n].current_term >= c.nodes[n].current_term);
            } else {
                lemma_acked_before(c, d, n, v, t, i);
                lemma_acked_within(c, v, t, i);
            }
        }
    }
    assert(d.went_on(q, t, i));
}

proof fn lemma_commit_inv_performed<T>(
    c: Cluster<T>,
    n: NodeName,
    s: RaftState<T>,
    out: Seq<Packet<RaftMsg<T>>>,
)
    requires
        c.inv(),
        c.commit_inv(),
        follows_on(c, n, s),
        c.performed(n, s, out).inv(),
        acts_safely(c, n, s, out),
    ensures
        c.performed(n, s, out).commit_inv(),
{
    let d = c.performed(n, s, out);
    lemma_performed_grows(c, n, s, out);
    lemma_acks_by(c, n, s, out);
    assert(d.nodes[n].current_term == s.current_term);
    assert(d.nodes[n].log == s.log);
    assert forall|q: NodeName, t: u64, i: u64| #[trigger]
        d.acked(q, t, i) && d.own_entry(t, i) implies d.safe(d.nodes[q].log, t, i) by {
        if q != n {
            lemma_acked_before(c, d, n, q, t, i);
            lemma_acked_within(c, q, t, i);
            lemma_own_grown(c, d, t, i);
            assert(c.safe(c.nodes[q].log, t, i));
            lemma_safe_grown(c, d, n, c.nodes[q].log, t, i);
            assert(d.nodes[q] == c.nodes[q]);
        }
    }
    assert forall|v: NodeName, t2: u64, t: u64, i: u64|
        #![trigger d.votes.contains_key((v, t2)), d.acked(v, t, i)]
        d.votes.contains_key((v, t2)) && t < t2 && d.acked(v, t, i) && d.own_entry(
            t,
            i,
        ) implies d.safe(d.stood[(d.votes[(v, t2)], t2)], t, i) by {
        if c.votes.contains_key((v, t2)) {
            assert(d.members.contains(v));
            assert(d.node_ok(v));
            assert(t2 <= d.nodes[v].current_term);
            lemma_acked_before(c, d, n, v, t, i);
            lemma_acked_within(c, v, t, i);
            lemma_own_grown(c, d, t, i);
            assert(c.stood.contains_key((c.votes[(v, t2)], t2)));
            lemma_safe_grown(c, d, n, c.stood[(c.votes[(v, t2)], t2)], t, i);
        } else {
            assert(v == n && t2 == s.current_term);
        }
    }
    assert forall|t2: u64, t: u64, i: u64|
        #![trigger d.leaders.contains_key(t2), d.own_entry(t, i)]
        d.leaders.contains_key(t2) && t < t2 && d.own_entry(t, i) implies d.safe(
        d.base(t2),
        t,
        i,
    ) by {
        if c.leaders.contains_key(t2) {
            assert(c.leader_ok(t2));
            assert(c.stood.contains_key((c.leaders[t2], t2)));
            if c.leaders.contains_key(t) && i < c.led[t].len() {
                lemma_own_grown(c, d, t, i);
                assert(c.own_entry(t, i));
                assert(c.safe(c.base(t2), t, i));
                lemma_safe_grown(c, d, n, c.base(t2), t, i);
            } else {
                lemma_new_entry_blocked(c, d, n, t2, t, i);
            }
        } else {
            assert(t2 == s.current_term);
        }
    }
    assert forall|m: NodeName| #[trigger] d.members.contains(m) implies d.match_ok(m)
        && d.commit_ok(m) by {
        if m != n {
            assert(c.members.contains(m));
            assert(d.nodes[m] == c.nodes[m]);
            let r = c.nodes[m];
            assert(c.match_ok(m) && c.commit_ok(m));
            if let Some(x) = r.commit_index {
                lemma_covered_grown(c, d, r.log, x, r.current_term, r.current_term);
            }
        }
    }
    assert forall|e: Envelope<T>| #[trigger] d.net.contains(e) implies d.announced_ok(e) by {
        if c.net.contains(e) {
            assert(c.announced_ok(e));
            assert(c.msg_ok(e));
            if let RaftMsg::AppendEntries { term, leader_commit, .. } = e.msg {
                if let Some(x) = leader_commit {
                    lemma_covered_grown(c, d, c.led[term], x, term, term);
                    assert(c.leaders.contains_key(term));
                    assert(x < c.led[term].len());
                    assert(d.led[term].take(x + 1) =~= d.led[term].take(
                        c.led[term].len() as int,
                    ).take(x + 1));
                    lemma_covered_longer(d, c.led[term], d.led[term], x, term);
                }
            }
        } else {
            let k = choose|k: int|
                #![trigger out[k]]
                0 <= k < out.len() && e == (Envelope {
                    src: n,
                    dst: out[k].target,
                    msg: out[k].message,
                });
            assert(d.announced_ok(Envelope { src: n, dst: out[k].target, msg: out[k].message }));
        }
    }
    assert forall|x: (NodeName, u64, T)| #[trigger] d.decided.contains(x) implies d.decision_ok(
        x.1,
        x.2,
    ) by {
        if c.decided.contains(x) {
            assert(c.decision_ok(x.1, x.2));
            let (t, i) = choose|t: u64, i: u64| #[trigger]
                c.chosen(t, i) && x.1 <= i && c.led[t][x.1 as int].value == x.2;
            lemma_chosen_grown(c, d, t, i);
            lemma_own_grown(c, d, t, x.1);
        } else {
            let k = choose|k: int|
                0 <= k < s.pending_decisions.len() && s.pending_decisions[k] == (x.1, x.2);
            assert(d.decision_ok(s.pending_decisions[k].0, s.pending_decisions[k].1));
        }
    }
    assert forall|m: NodeName, t: u64| #[trigger] d.votes.contains_key((m, t)) implies
        d.stood.contains_key((d.votes[(m, t)], t)) by {
        if c.votes.contains_key((m, t)) {
            assert(c.stood.contains_key((c.votes[(m, t)], t)));
        }
    }
}

proof fn lemma_agrees_longer<T>(
    log: Seq<Entry<T>>,
    longer: Seq<Entry<T>>,
    other: Seq<Entry<T>>,
    i: int,
)
    requires
        0 <= i,
        agrees(log, other, i),
        log.len() <= longer.len(),
        longer.take(log.len() as int) == log,
    ensures
        agrees(longer, other, i),
{
    assert(longer.take(i + 1) =~= longer.take(log.len() as int).take(i + 1));
}

/// Whatever a node acknowledged before, it holds after its log grew.
proof fn lemma_acks_kept_longer<T>(
    c: Cluster<T>,
    n: NodeName,
    s: RaftState<T>,
    out: Seq<Packet<RaftMsg<T>>>,
)
    requires
        c.inv(),
        c.commit_inv(),
        follows_on(c, n, s),
        c.performed(n, s, out).inv(),
        c.nodes[n].log.len() <= s.log.len(),
        s.log.take(c.nodes[n].log.len() as int) == c.nodes[n].log,
        s.role != Role::Leader ==> forall|m: u64| !acknowledges(out, s.current_term, m),
    ensures
        ({
            let d = c.performed(n, s, out);
            forall|t: u64, i: u64| #[trigger]
                d.acked(n, t, i) && d.own_entry(t, i) ==> d.safe(s.log, t, i)
        }),
{
    let d = c.performed(n, s, out);
    lemma_performed_grows(c, n, s, out);
    lemma_acks_by(c, n, s, out);
    assert forall|t: u64, i: u64| #[trigger] d.acked(n, t, i) && d.own_entry(t, i) implies d.safe(
        s.log,
        t,
        i,
    ) by {
        if s.role == Role::Leader && t == s.current_term {
            assert(d.led[t] == s.log);
        } else {
            let m = choose|m: u64| m >= i && #[trigger] d.acks.contains((n, t, m));
            assert(c.acks.contains((n, t, m)));
            assert(c.acked(n, t, i));
            lemma_acked_within(c, n, t, i);
            lemma_own_grown(c, d, t, i);
            assert(c.safe(c.nodes[n].log, t, i));
            lemma_safe_grown(c, d, n, c.nodes[n].log, t, i);
            if !d.blocked(t, i) {
                lemma_agrees_longer(c.nodes[n].log, s.log, d.led[t], i as int);
            }
        }
    }
}

/// Where the commit index stayed, a log that only grew is still chosen as far.
proof fn lemma_commit_kept_ok<T>(
    c: Cluster<T>,
    n: NodeName,
    s: RaftState<T>,
    out: Seq<Packet<RaftMsg<T>>>,
)
    requires
        c.inv(),
        c.commit_inv(),
        follows_on(c, n, s),
        c.nodes[n].log.len() <= s.log.len(),
        s.log.take(c.nodes[n].log.len() as int) == c.nodes[n].log,
        commit_kept(c.nodes[n], s),
    ensures
        c.performed(n, s, out).commit_ok(n),
        forall|k: int|
            0 <= k < s.pending_decisions.len() ==> c.performed(n, s, out).decision_ok(
                (#[trigger] s.pending_decisions[k]).0,
                s.pending_decisions[k].1,
            ),
{
    let d = c.performed(n, s, out);
    let before = c.nodes[n];
    lemma_performed_grows(c, n, s, out);
    assert(c.commit_ok(n));
    if let Some(x) = s.commit_index {
        lemma_covered_grown(c, d, before.log, x, before.current_term, s.current_term);
        assert(s.log.take(x + 1) =~= s.log.take(before.log.len() as int).take(x + 1));
        lemma_covered_longer(d, before.log, s.log, x, s.current_term);
    }
    lemma_pending_ok(c, n, s, out, before.pending_decisions);
}

/// Decisions that were delivered before are chosen.
proof fn lemma_pending_ok<T>(
    c: Cluster<T>,
    n: NodeName,
    s: RaftState<T>,
    out: Seq<Packet<RaftMsg<T>>>,
    pending: Seq<(u64, T)>,
)
    requires
        c.inv(),
        c.commit_inv(),
        follows_on(c, n, s),
        pending == c.nodes[n].pending_decisions,
    ensures
        forall|k: int|
            0 <= k < pending.len() ==> c.performed(n, s, out).decision_ok(
                (#[trigger] pending[k]).0,
                pending[k].1,
            ),
        forall|k: int|
            0 <= k < s.pending_decisions.len() ==> c.performed(n, s, out).decided.contains(
                (n, (#[trigger] s.pending_decisions[k]).0, s.pending_decisions[k].1),
            ),
{
    let d = c.performed(n, s, out);
    lemma_performed_grows(c, n, s, out);
    assert(c.commit_ok(n));
    assert forall|k: int| 0 <= k < pending.len() implies d.decision_ok(
        (#[trigger] pending[k]).0,
        pending[k].1,
    ) by {
        let x = (n, pending[k].0, pending[k].1);
        assert(c.decided.contains(x));
        assert(c.decision_ok(x.1, x.2));
        let (t, i) = choose|t: u64, i: u64| #[trigger]
            c.chosen(t, i) && x.1 <= i && c.led[t][x.1 as int].value == x.2;
        lemma_chosen_grown(c, d, t, i);
        lemma_own_grown(c, d, t, x.1);
    }
    assert forall|k: int| 0 <= k < s.pending_decisions.len() implies d.decided.contains(
        (n, (#[trigger] s.pending_decisions[k]).0, s.pending_decisions[k].1),
    ) by {
        assert(s.pending_decisions.contains(
            (s.pending_decisions[k].0, s.pending_decisions[k].1),
        ));
    }
}

/// Where the commit index moved on, the entries it passed are chosen.
proof fn lemma_commit_moved_ok<T>(
    c: Cluster<T>,
    n: NodeName,
    s: RaftState<T>,
    out: Seq<Packet<RaftMsg<T>>>,
    x: u64,
)
    requires
        c.inv(),
        c.commit_inv(),
        follows_on(c, n, s),
        s.commit_index == Some(x),
        x < s.log.len(),
        s.last_applied == s.commit_index,
        s.pending_decisions == c.nodes[n].pending_decisions + decisions_between(
            s.log,
            c.nodes[n].last_applied,
            x,
        ),
        c.performed(n, s, out).covered(s.log, x, s.current_term),
    ensures
        c.performed(n, s, out).commit_ok(n),
        forall|k: int|
            0 <= k < s.pending_decisions.len() ==> c.performed(n, s, out).decision_ok(
                (#[trigger] s.pending_decisions[k]).0,
                s.pending_decisions[k].1,
            ),
{
    let d = c.performed(n, s, out);
    let pending = c.nodes[n].pending_decisions;
    lemma_pending_ok(c, n, s, out, pending);
    let (t, i) = choose|t: u64, i: u64| #[trigger]
        d.chosen(t, i) && t <= s.current_term && x <= i && agrees(s.log, d.led[t], x as int);
    assert forall|k: int| 0 <= k < s.pending_decisions.len() implies d.decision_ok(
        (#[trigger] s.pending_decisions[k]).0,
        s.pending_decisions[k].1,
    ) by {
        if k < pending.len() {
            assert(s.pending_decisions[k] == pending[k]);
        } else {
            let new = decisions_between(s.log, c.nodes[n].last_applied, x);
            let (slot, value) = s.pending_decisions[k];
            assert(s.pending_decisions[k] == new[k - pending.len()]);
            assert(slot <= x);
            assert(s.log.take(x + 1)[slot as int] == s.log[slot as int]);
            assert(d.led[t].take(x + 1)[slot as int] == d.led[t][slot as int]);
            assert(d.led[t][slot as int].value == value);
        }
    }
}

/// What a leader counted is chosen.
proof fn lemma_counted_covered<T>(
    c: Cluster<T>,
    n: NodeName,
    s: RaftState<T>,
    out: Seq<Packet<RaftMsg<T>>>,
)
    requires
        c.inv(),
        follows_on(c, n, s),
        c.performed(n, s, out).inv(),
        c.performed(n, s, out).match_ok(n),
        s.role == Role::Leader,
        counted(c.nodes[n], s),
    ensures
        c.performed(n, s, out).covered(s.log, s.commit_index->0, s.current_term),
{
    let d = c.performed(n, s, out);
    let t = s.current_term;
    let x = s.commit_index->0;
    assert(d.node_ok(n));
    assert(d.leaders.contains_key(t) && d.led[t] == s.log);
    assert(d.own_entry(t, x));
    let q = replicated_on(s.match_index, x);
    assert forall|v: NodeName| q.contains(v) implies d.members.contains(v) && d.acked(v, t, x) by {
        assert(s.match_index.contains_key(v));
        assert(d.acks.contains((v, t, s.match_index[v]->0)));
    }
    assert(is_quorum(d.members, q));
    assert(d.all_acked(q, t, x)) by {
        assert forall|v: NodeName| #[trigger] q.contains(v) implies d.acked(v, t, x) by {}
    }
    assert(d.chosen(t, x));
    assert(agrees(s.log, d.led[t], x as int));
}

/// The commit index of a leader is chosen, whether it moved or not.
proof fn lemma_leader_commit_ok<T>(
    c: Cluster<T>,
    n: NodeName,
    s: RaftState<T>,
    out: Seq<Packet<RaftMsg<T>>>,
)
    requires
        c.inv(),
        c.commit_inv(),
        follows_on(c, n, s),
        c.performed(n, s, out).inv(),
        c.performed(n, s, out).match_ok(n),
        c.nodes[n].log.len() <= s.log.len(),
        s.log.take(c.nodes[n].log.len() as int) == c.nodes[n].log,
        commit_kept(c.nodes[n], s) || (s.role == Role::Leader && counted(c.nodes[n], s)) || restores(
            c.nodes[n],
            s,
        ),
    ensures
        c.performed(n, s, out).commit_ok(n),
        forall|k: int|
            0 <= k < s.pending_decisions.len() ==> c.performed(n, s, out).decision_ok(
                (#[trigger] s.pending_decisions[k]).0,
                s.pending_decisions[k].1,
            ),
{
    if commit_kept(c.nodes[n], s) {
        lemma_commit_kept_ok(c, n, s, out);
    } else if restores(c.nodes[n], s) {
        lemma_restored_commit_ok(c, n, s, out);
    } else {
        lemma_counted_covered(c, n, s, out);
        lemma_commit_moved_ok(c, n, s, out, s.commit_index->0);
    }
}

/// What a restored node has committed was committed before.
proof fn lemma_restored_commit_ok<T>(
    c: Cluster<T>,
    n: NodeName,
    s: RaftState<T>,
    out: Seq<Packet<RaftMsg<T>>>,
)
    requires
        c.inv(),
        c.commit_inv(),
        follows_on(c, n, s),
        c.nodes[n].log.len() <= s.log.len(),
        s.log.take(c.nodes[n].log.len() as int) == c.nodes[n].log,
        restores(c.nodes[n], s),
    ensures
        c.performed(n, s, out).commit_ok(n),
{
    let before = c.nodes[n];
    let d = c.performed(n, s, out);
    lemma_performed_grows(c, n, s, out);
    assert(c.commit_ok(n));
    if let Some(x) = s.commit_index {
        lemma_covered_up_to(c, before.log, before.commit_index->0, x, before.current_term);
        lemma_covered_grown(c, d, before.log, x, before.current_term, s.current_term);
        assert(s.log.take(x + 1) =~= s.log.take(before.log.len() as int).take(x + 1));
        lemma_covered_longer(d, before.log, s.log, x, s.current_term);
    }
}

/// Whether every append among the packets is one of a leader, with its commit
/// index.
spec fn announces_own<T>(s: RaftState<T>, out: Seq<Packet<RaftMsg<T>>>) -> bool {
    forall|k: int|
        0 <= k < out.len() && (#[trigger] out[k]).message is AppendEntries ==> s.role
            == Role::Leader && out[k].message->AppendEntries_term == s.current_term
            && out[k].message->leader_commit == s.commit_index
}

proof fn lemma_announced<T>(
    c: Cluster<T>,
    n: NodeName,
    s: RaftState<T>,
    out: Seq<Packet<RaftMsg<T>>>,
)
    requires
        c.performed(n, s, out).inv(),
        c.members.contains(n),
        c.performed(n, s, out).commit_ok(n),
        announces_own(s, out),
    ensures
        forall|k: int|
            0 <= k < out.len() ==> c.performed(n, s, out).announced_ok(
                Envelope { src: n, dst: (#[trigger] out[k]).target, msg: out[k].message },
            ),
{
    let d = c.performed(n, s, out);
    assert(d.node_ok(n));
    assert forall|k: int| 0 <= k < out.len() implies d.announced_ok(
        Envelope { src: n, dst: (#[trigger] out[k]).target, msg: out[k].message },
    ) by {
        if out[k].message is AppendEntries {
            assert(d.led[s.current_term] == s.log);
        }
    }
}

/// A step that leaves the log as it is and votes for nobody new.
proof fn lemma_passive_safe<T>(
    c: Cluster<T>,
    n: NodeName,
    s: RaftState<T>,
    out: Seq<Packet<RaftMsg<T>>>,
)
    requires
        c.inv(),
        c.commit_inv(),
        passive(c, n, s, out),
        follows_on(c, n, s),
        c.performed(n, s, out).inv(),
        c.performed(n, s, out).match_ok(n),
        commit_kept(c.nodes[n], s) || (s.role == Role::Leader && counted(c.nodes[n], s)),
        announces_own(s, out),
    ensures
        acts_safely(c, n, s, out),
{
    let d = c.performed(n, s, out);
    let before = c.nodes[n];
    assert(c.node_ok(n));
    assert(d.node_ok(n));
    lemma_performed_grows(c, n, s, out);
    assert(s.log.take(before.log.len() as int) =~= before.log);
    lemma_acks_kept_longer(c, n, s, out);
    lemma_leader_commit_ok(c, n, s, out);
    lemma_announced(c, n, s, out);
    if d.votes.contains_key((n, s.current_term)) {
        assert(s.current_term == before.current_term);
        assert(c.votes.contains_key((n, s.current_term)));
        assert(c.stood.contains_key((c.votes[(n, s.current_term)], s.current_term)));
    }
}

/// A step that votes for another node: what the voter acknowledged, the
/// candidate holds, for its log is at least as up-to-date.
proof fn lemma_vote_safe<T>(
    c: Cluster<T>,
    n: NodeName,
    s: RaftState<T>,
    out: Seq<Packet<RaftMsg<T>>>,
    candidate: NodeName,
)
    requires
        c.inv(),
        c.commit_inv(),
        votes_for(c, n, s, out, candidate),
        follows_on(c, n, s),
        c.performed(n, s, out).inv(),
        commit_kept(c.nodes[n], s),
        c.stood.contains_key((candidate, s.current_term)),
        up_to_date(
            c.nodes[n].log,
            last_term(c.stood[(candidate, s.current_term)]),
            last_index(c.stood[(candidate, s.current_term)]),
        ),
    ensures
        acts_safely(c, n, s, out),
{
    let d = c.performed(n, s, out);
    let before = c.nodes[n];
    let t2 = s.current_term;
    assert(c.node_ok(n));
    assert(d.node_ok(n));
    assert(s.role == Role::Follower);
    lemma_performed_grows(c, n, s, out);
    lemma_acks_by(c, n, s, out);
    assert(s.log.take(before.log.len() as int) =~= before.log);
    assert forall|m: u64| !acknowledges(out, t2, m) by {
        if acknowledges(out, t2, m) {
            let k = choose|k: int|
                #![trigger out[k]]
                0 <= k < out.len() && is_ack(out[k].message, t2, m);
            assert(k == 0);
        }
    }
    lemma_acks_kept_longer(c, n, s, out);
    lemma_commit_kept_ok(c, n, s, out);
    lemma_announced(c, n, s, out);
    let theirs = c.stood[(candidate, t2)];
    assert(d.stood[(candidate, t2)] == theirs);
    assert forall|t: u64, i: u64| #[trigger]
        d.acked(n, t, i) && t < t2 && d.own_entry(t, i) implies d.safe(theirs, t, i) by {
        lemma_acked_before(c, d, n, n, t, i);
        lemma_acked_within(c, n, t, i);
        lemma_own_grown(c, d, t, i);
        assert(c.safe(before.log, t, i));
        lemma_candidate_holds(c, before.log, theirs, candidate, t2, t, i);
        lemma_safe_grown(c, d, n, theirs, t, i);
    }
}

/// A candidate whose log is at least as up-to-date as one that holds an entry
/// holds it too, or the entry can no longer be chosen.
proof fn lemma_candidate_holds<T>(
    c: Cluster<T>,
    ours: Seq<Entry<T>>,
    theirs: Seq<Entry<T>>,
    candidate: NodeName,
    t2: u64,
    t: u64,
    i: u64,
)
    requires
        c.inv(),
        c.commit_inv(),
        c.stood.contains_key((candidate, t2)),
        theirs == c.stood[(candidate, t2)],
        c.log_ok(ours),
        ours.len() <= u64::MAX,
        up_to_date(ours, last_term(theirs), last_index(theirs)),
        t < t2,
        c.own_entry(t, i),
        c.safe(ours, t, i),
    ensures
        c.safe(theirs, t, i),
{
    if !c.blocked(t, i) {
        assert(c.stood_ok(candidate, t2));
        lemma_led_ok(c, t);
        // Our last term is at least t: terms do not decrease along a log.
        assert(ours.len() > 0);
        let last = ours.len() - 1;
        let ours_term = ours[last].term;
        assert(c.entry_ok(ours, last));
        assert(ours_term >= t) by {
            lemma_led_ok(c, ours_term);
            let led = c.led[ours_term];
            assert(ours.take(last + 1)[i as int] == ours[i as int]);
            assert(led.take(last + 1)[i as int] == led[i as int]);
            assert(led[i as int].term <= ours_term);
            assert(ours.take(i + 1)[i as int] == ours[i as int]);
            assert(c.led[t].take(i + 1)[i as int] == c.led[t][i as int]);
        }
        let theirs_term = last_term(theirs);
        assert(theirs_term >= ours_term);
        if theirs.len() == 0 {
            // An empty log is as up-to-date as none that holds an entry of a real term.
            assert(theirs_term == 0);
            assert(ours_term == 0);
            assert(last_index(theirs) is None);
            assert(false);
        }
        let end = theirs.len() - 1;
        assert(theirs.len() <= u64::MAX);
        assert(c.entry_ok(theirs, end));
        let led2 = c.led[theirs_term];
        assert(theirs.take(end + 1) =~= theirs);
        if theirs_term == t {
            assert(ours_term == t);
            assert(end >= last);
            assert(i <= last) by {
                assert(i < ours.len());
            }
            assert(theirs.take(i + 1) =~= theirs.take(end + 1).take(i + 1));
            assert(led2.take(i + 1) =~= led2.take(end + 1).take(i + 1));
            assert(agrees(theirs, c.led[t], i as int));
        } else {
            assert(theirs_term > t);
            assert(c.leaders.contains_key(theirs_term));
            assert(c.safe(c.base(theirs_term), t, i));
            let base = c.base(theirs_term);
            assert(c.leader_ok(theirs_term));
            lemma_led_ok(c, theirs_term);
            // The last entry is one of that leader's own, so it lies behind its base.
            assert(led2.take(end + 1)[end] == led2[end]);
            assert(theirs[end] == led2[end]);
            assert(end >= base.len());
            assert(i < base.len());
            assert(theirs.take(i + 1) =~= theirs.take(end + 1).take(i + 1));
            assert(led2.take(i + 1) =~= led2.take(end + 1).take(i + 1));
            assert(led2.take(i + 1) =~= led2.take(base.len() as int).take(i + 1));
            assert(agrees(theirs, c.led[t], i as int));
        }
    }
}

/// A step that stands for election: the candidate holds what it acknowledged.
proof fn lemma_stand_safe<T>(
    c: Cluster<T>,
    n: NodeName,
    s: RaftState<T>,
    out: Seq<Packet<RaftMsg<T>>>,
)
    requires
        c.inv(),
        c.commit_inv(),
        stands(c, n, s, out),
        follows_on(c, n, s),
        c.performed(n, s, out).inv(),
        commit_kept(c.nodes[n], s),
    ensures
        acts_safely(c, n, s, out),
{
    let d = c.performed(n, s, out);
    let before = c.nodes[n];
    let t2 = s.current_term;
    assert(c.node_ok(n));
    assert(d.node_ok(n));
    lemma_performed_grows(c, n, s, out);
    lemma_acks_by(c, n, s, out);
    assert(s.log.take(before.log.len() as int) =~= before.log);
    assert forall|m: u64| !acknowledges(out, t2, m) by {
        if acknowledges(out, t2, m) {
            let k = choose|k: int|
                #![trigger out[k]]
                0 <= k < out.len() && is_ack(out[k].message, t2, m);
            assert(k == 0);
        }
    }
    lemma_acks_kept_longer(c, n, s, out);
    lemma_commit_kept_ok(c, n, s, out);
    lemma_announced(c, n, s, out);
    assert(d.votes[(n, t2)] == n);
    assert(d.stood[(n, t2)] == before.log);
}

/// A step that takes the lead: what can be chosen in an earlier term was
/// acknowledged by one of the voters, and so the new leader holds it.
proof fn lemma_win_safe<T>(
    c: Cluster<T>,
    n: NodeName,
    s: RaftState<T>,
    out: Seq<Packet<RaftMsg<T>>>,
    q: Set<NodeName>,
)
    requires
        c.inv(),
        c.commit_inv(),
        wins(c, n, s, out, q),
        led_from(c.nodes[n], s),
    ensures
        follows_on(c, n, s),
        c.performed(n, s, out).inv(),
        acts_safely(c, n, s, out),
{
    lemma_win(c, n, s, out, q);
    let d = c.performed(n, s, out);
    let before = c.nodes[n];
    let t2 = s.current_term;
    assert(c.node_ok(n));
    assert(d.node_ok(n));
    lemma_performed_grows(c, n, s, out);
    lemma_acks_by(c, n, s, out);
    lemma_acks_kept_longer(c, n, s, out);
    assert(d.match_ok(n)) by {
        assert forall|v: NodeName| #[trigger]
            s.match_index.contains_key(v) && s.match_index[v] is Some implies d.members.contains(v)
            && d.acks.contains((v, t2, s.match_index[v]->0)) by {
            assert(v == n);
        }
    }
    lemma_leader_commit_ok(c, n, s, out);
    assert(announces_own(s, out));
    lemma_announced(c, n, s, out);
    assert(d.base(t2) == before.log);
    if before.current_term == t2 {
        assert(c.stood.contains_key((n, t2)));
        assert(c.voted(n, t2, n));
    }
    assert(d.votes[(n, t2)] == n);
    assert(d.stood.contains_key((n, t2)));
    assert(d.stood[(n, t2)] == before.log);
    // What the new leader itself acknowledged, it holds.
    assert forall|t: u64, i: u64| #[trigger]
        d.acked(n, t, i) && t < t2 && d.own_entry(t, i) implies d.safe(before.log, t, i) by {
        lemma_acked_before(c, d, n, n, t, i);
        lemma_acked_within(c, n, t, i);
        lemma_own_grown(c, d, t, i);
        assert(c.safe(before.log, t, i));
        lemma_safe_grown(c, d, n, before.log, t, i);
    }
    assert forall|t: u64, i: u64| t < t2 && #[trigger] d.own_entry(t, i) implies d.safe(
        d.base(t2),
        t,
        i,
    ) by {
        if exists|v: NodeName| #[trigger] q.contains(v) && d.acked(v, t, i) {
            let v = choose|v: NodeName| #[trigger] q.contains(v) && d.acked(v, t, i);
            if v != n {
                lemma_acked_before(c, d, n, v, t, i);
                lemma_acked_within(c, v, t, i);
                lemma_own_grown(c, d, t, i);
                assert(c.voted(v, t2, n));
                assert(c.votes.contains_key((v, t2)));
                assert(before.current_term == t2) by {
                    if before.current_term != t2 {
                        assert(c.node_ok(v));
                        crate::raft_cluster::lemma_only_member(c, n);
                        assert(c.members.contains(v));
                    }
                }
                assert(c.safe(c.stood[(n, t2)], t, i));
                lemma_safe_grown(c, d, n, before.log, t, i);
            }
        } else {
            assert(d.went_on(q, t, i)) by {
                assert forall|v: NodeName| #[trigger] q.contains(v) implies d.nodes[v].current_term
                    > t && !d.acked(v, t, i) by {
                    if v != n {
                        assert(c.voted(v, t2, n));
                        assert(c.votes.contains_key((v, t2)));
                        assert(c.members.contains(v));
                        assert(c.node_ok(v));
                    }
                }
            }
            assert(is_quorum(d.members, q));
        }
    }
}

/// A step that extends the log of a leader.
proof fn lemma_extend_safe<T>(
    c: Cluster<T>,
    n: NodeName,
    s: RaftState<T>,
    out: Seq<Packet<RaftMsg<T>>>,
)
    requires
        c.inv(),
        c.commit_inv(),
        extends(c, n, s, out),
        extended_by(c.nodes[n], s),
        follows_on(c, n, s),
        c.performed(n, s, out).inv(),
    ensures
        acts_safely(c, n, s, out),
{
    let d = c.performed(n, s, out);
    let before = c.nodes[n];
    let t2 = s.current_term;
    assert(c.node_ok(n));
    assert(d.node_ok(n));
    lemma_performed_grows(c, n, s, out);
    lemma_acks_by(c, n, s, out);
    lemma_acks_kept_longer(c, n, s, out);
    assert(d.match_ok(n)) by {
        assert(c.match_ok(n));
        assert forall|v: NodeName| #[trigger]
            s.match_index.contains_key(v) && s.match_index[v] is Some implies d.members.contains(v)
            && d.acks.contains((v, t2, s.match_index[v]->0)) by {
            if v != n {
                assert(before.match_index.contains_key(v));
                assert(c.acks.contains((v, t2, before.match_index[v]->0)));
            }
        }
    }
    lemma_leader_commit_ok(c, n, s, out);
    assert(announces_own(s, out));
    lemma_announced(c, n, s, out);
    assert(c.votes.contains_key((n, t2)));
    assert(c.stood.contains_key((c.votes[(n, t2)], t2)));
}

/// A step that takes over the log of a leader: what was acknowledged and what
/// was committed stays, for the leader holds it.
proof fn lemma_take_over_safe<T>(
    c: Cluster<T>,
    n: NodeName,
    s: RaftState<T>,
    out: Seq<Packet<RaftMsg<T>>>,
    end: int,
    leader_commit: Option<u64>,
)
    requires
        c.inv(),
        c.commit_inv(),
        takes_over(c, n, s, out, end),
        c.base(s.current_term).len() <= end,
        forall|j: int|
            s.log.len() <= j < c.nodes[n].log.len() ==> (#[trigger] c.nodes[n].log[j]).term
                != s.current_term,
        commit_kept(c.nodes[n], s) || learned(c.nodes[n], s, leader_commit),
        leader_commit matches Some(x) ==> c.covered(c.led[s.current_term], x, s.current_term),
    ensures
        follows_on(c, n, s),
        c.performed(n, s, out).inv(),
        acts_safely(c, n, s, out),
{
    lemma_take_over(c, n, s, out, end);
    let d = c.performed(n, s, out);
    let before = c.nodes[n];
    let t0 = s.current_term;
    let led = c.led[t0];
    let base = c.base(t0);
    assert(c.node_ok(n));
    assert(d.node_ok(n));
    assert(c.leader_ok(t0));
    lemma_performed_grows(c, n, s, out);
    lemma_acks_by(c, n, s, out);
    lemma_led_ok(c, t0);
    assert(d.led[t0] == led);
    assert forall|t: u64, i: u64| #[trigger] d.acked(n, t, i) && d.own_entry(t, i) implies d.safe(
        s.log,
        t,
        i,
    ) by {
        let m = choose|m: u64| m >= i && #[trigger] d.acks.contains((n, t, m));
        if !c.acks.contains((n, t, m)) {
            assert(acknowledges(out, t, m));
            assert(t == t0);
            assert(m == (end - 1) as u64);
            assert(s.log.take(i + 1) =~= led.take(i + 1));
        } else {
            assert(c.acked(n, t, i));
            lemma_acked_within(c, n, t, i);
            lemma_own_grown(c, d, t, i);
            assert(c.safe(before.log, t, i));
            lemma_still_holds(c, before.log, s.log, t0, s.log.len() as int, t, i);
            lemma_safe_grown(c, d, n, s.log, t, i);
        }
    }
    if commit_kept(before, s) {
        lemma_pending_ok(c, n, s, out, before.pending_decisions);
        assert(c.commit_ok(n));
        if let Some(x) = before.commit_index {
            let (t, i) = choose|t: u64, i: u64| #[trigger]
                c.chosen(t, i) && t <= before.current_term && x <= i && agrees(
                    before.log,
                    c.led[t],
                    x as int,
                );
            lemma_still_committed(c, before.log, s.log, t0, s.log.len() as int, t, i, x);
            assert(c.covered(s.log, x, t0));
            lemma_covered_grown(c, d, s.log, x, t0, t0);
        }
    } else {
        let x = s.commit_index->0;
        let lc = leader_commit->0;
        lemma_covered_grown(c, d, led, lc, t0, t0);
        let (t, i) = choose|t: u64, i: u64| #[trigger]
            d.chosen(t, i) && t <= t0 && lc <= i && agrees(led, d.led[t], lc as int);
        assert(s.log.take(x + 1) =~= led.take(x + 1));
        assert(led.take(x + 1) =~= led.take(lc + 1).take(x + 1));
        assert(d.led[t].take(x + 1) =~= d.led[t].take(lc + 1).take(x + 1));
        assert(agrees(s.log, d.led[t], x as int));
        assert(d.covered(s.log, x, t0));
        lemma_commit_moved_ok(c, n, s, out, x);
    }
    assert forall|k: int| 0 <= k < out.len() implies d.announced_ok(
        Envelope { src: n, dst: (#[trigger] out[k]).target, msg: out[k].message },
    ) by {
        if k > 0 {
            assert(out[k].message is Forward);
        }
    }
    if d.votes.contains_key((n, t0)) {
        assert(t0 == before.current_term);
        assert(c.votes.contains_key((n, t0)));
        assert(c.stood.contains_key((c.votes[(n, t0)], t0)));
    }
}

/// What a node acknowledged, it still holds after it took over a leader's log.
proof fn lemma_still_holds<T>(
    c: Cluster<T>,
    before: Seq<Entry<T>>,
    now: Seq<Entry<T>>,
    t0: u64,
    end: int,
    t: u64,
    i: u64,
)
    requires
        c.inv(),
        c.commit_inv(),
        c.leaders.contains_key(t0),
        c.base(t0).len() <= end <= c.led[t0].len(),
        now == c.led[t0].take(end),
        forall|j: int| end <= j < before.len() ==> (#[trigger] before[j]).term != t0,
        c.own_entry(t, i),
        t <= t0,
        c.safe(before, t, i),
    ensures
        c.safe(now, t, i),
{
    let led = c.led[t0];
    assert(c.leader_ok(t0));
    if !c.blocked(t, i) {
        if t == t0 {
            assert(before.take(i + 1)[i as int] == before[i as int]);
            assert(led.take(i + 1)[i as int] == led[i as int]);
            assert(i < end);
            assert(now.take(i + 1) =~= led.take(i + 1));
        } else {
            assert(c.safe(c.base(t0), t, i));
            let base = c.base(t0);
            assert(now.take(i + 1) =~= led.take(base.len() as int).take(i + 1));
            assert(agrees(now, c.led[t], i as int));
        }
    }
}

/// What a node committed, it still holds after it took over a leader's log.
proof fn lemma_still_committed<T>(
    c: Cluster<T>,
    before: Seq<Entry<T>>,
    now: Seq<Entry<T>>,
    t0: u64,
    end: int,
    t: u64,
    i: u64,
    x: u64,
)
    requires
        c.inv(),
        c.commit_inv(),
        c.leaders.contains_key(t0),
        c.base(t0).len() <= end <= c.led[t0].len(),
        now == c.led[t0].take(end),
        forall|j: int| end <= j < before.len() ==> (#[trigger] before[j]).term != t0,
        c.chosen(t, i),
        t <= t0,
        x <= i,
        agrees(before, c.led[t], x as int),
    ensures
        agrees(now, c.led[t], x as int),
{
    let led = c.led[t0];
    assert(c.leader_ok(t0));
    if t == t0 {
        if x >= end {
            assert(led[x as int].term == t0);
            assert(before.take(x + 1)[x as int] == before[x as int]);
            assert(led.take(x + 1)[x as int] == led[x as int]);
            assert(false);
        }
        assert(now.take(x + 1) =~= led.take(x + 1));
    } else {
        lemma_chosen_not_blocked(c, t, i);
        assert(c.safe(c.base(t0), t, i));
        let base = c.base(t0);
        assert(now.take(x + 1) =~= led.take(base.len() as int).take(x + 1));
        assert(base.take(x + 1) =~= base.take(i + 1).take(x + 1));
        assert(c.led[t].take(x + 1) =~= c.led[t].take(i + 1).take(x + 1));
    }
}

/// Where a leader's count did not change it is still right.
proof fn lemma_match_kept<T>(
    c: Cluster<T>,
    n: NodeName,
    s: RaftState<T>,
    out: Seq<Packet<RaftMsg<T>>>,
)
    requires
        c.inv(),
        c.commit_inv(),
        passive(c, n, s, out),
        s.role != Role::Leader || s.match_index == c.nodes[n].match_index,
    ensures
        c.performed(n, s, out).match_ok(n),
{
    let d = c.performed(n, s, out);
    assert(c.match_ok(n));
    if s.role == Role::Leader {
        assert forall|v: NodeName| #[trigger]
            s.match_index.contains_key(v) && s.match_index[v] is Some implies d.members.contains(v)
            && d.acks.contains((v, s.current_term, s.match_index[v]->0)) by {
            assert(c.nodes[n].match_index.contains_key(v));
            assert(c.acks.contains((v, s.current_term, s.match_index[v]->0)));
        }
    }
}

/// What is covered up to an index is covered up to any before it.
proof fn lemma_covered_up_to<T>(
    c: Cluster<T>,
    log: Seq<Entry<T>>,
    x: u64,
    y: u64,
    bound: u64,
)
    requires
        c.covered(log, x, bound),
        y <= x,
    ensures
        c.covered(log, y, bound),
{
    let (t, i) = choose|t: u64, i: u64| #[trigger]
        c.chosen(t, i) && t <= bound && x <= i && agrees(log, c.led[t], x as int);
    assert(log.take(y + 1) =~= log.take(x + 1).take(y + 1));
    assert(c.led[t].take(y + 1) =~= c.led[t].take(x + 1).take(y + 1));
    assert(agrees(log, c.led[t], y as int));
}

/// The highest saved slot was applied, and so was committed.
proof fn lemma_saved_committed<T>(c: Cluster<T>, n: NodeName, saved: Set<u64>)
    requires
        c.commit_inv(),
        c.members.contains(n),
        applied_by(c.nodes[n], saved),
    ensures
        highest(saved) matches Some(h) ==> c.nodes[n].commit_index is Some && h
            <= c.nodes[n].commit_index->0,
{
    assert(c.commit_ok(n));
    let h = highest(saved);
    if h is Some {
        assert(is_highest(saved, h->0));
        assert(saved.contains(h->0));
    }
}

/// A node that is restored has no more committed than it had.
proof fn lemma_restores<T>(
    c: Cluster<T>,
    n: NodeName,
    term: u64,
    vote: Option<NodeName>,
    saved: Set<u64>,
    commit: Option<u64>,
    now: u64,
    timeout: u64,
)
    requires
        c.inv(),
        c.commit_inv(),
        c.members.contains(n),
        applied_by(c.nodes[n], saved),
        not_before(commit, c.nodes[n].commit_index),
    ensures
        ({
            let b = c.nodes[n];
            restores(b, b.restored(term, vote, b.log, saved, commit, now, timeout))
        }),
{
    assert(c.node_ok(n));
    assert(c.commit_ok(n));
    lemma_saved_committed(c, n, saved);
}

/// A restart keeps what was acknowledged and committed.
proof fn lemma_restored_safe<T>(c: Cluster<T>, n: NodeName, s: RaftState<T>)
    requires
        c.inv(),
        c.commit_inv(),
        passive(c, n, s, Seq::empty()),
        follows_on(c, n, s),
        c.performed(n, s, Seq::empty()).inv(),
        restores(c.nodes[n], s),
        forall|q: NodeName| #[trigger]
            s.match_index.contains_key(q) && s.match_index[q] is Some ==> q == n
                && s.match_index[q]->0 < s.log.len(),
    ensures
        acts_safely(c, n, s, Seq::empty()),
{
    let out = Seq::<Packet<RaftMsg<T>>>::empty();
    let before = c.nodes[n];
    let d = c.performed(n, s, out);
    assert(c.node_ok(n));
    assert(d.node_ok(n));
    assert(c.commit_ok(n));
    lemma_performed_grows(c, n, s, out);
    assert(s.log.take(before.log.len() as int) =~= before.log);
    lemma_acks_kept_longer(c, n, s, out);
    lemma_restored_commit_ok(c, n, s, out);
    assert(d.match_ok(n)) by {
        if s.role == Role::Leader {
            assert forall|v: NodeName| #[trigger]
                s.match_index.contains_key(v) && s.match_index[v] is Some implies
                d.members.contains(v) && d.acks.contains(
                (v, s.current_term, s.match_index[v]->0),
            ) by {
                assert(v == n);
            }
        }
    }
    if d.votes.contains_key((n, s.current_term)) {
        assert(c.votes.contains_key((n, s.current_term)));
        assert(c.stood.contains_key((c.votes[(n, s.current_term)], s.current_term)));
    }
}

/// What a node acknowledged, it still holds where its log gives way to a
/// leader's, before the leader's entries are there.
proof fn lemma_left_holds<T>(
    c: Cluster<T>,
    n: NodeName,
    t0: u64,
    log: Seq<Entry<T>>,
    new: Seq<Entry<T>>,
    t: u64,
    i: u64,
)
    requires
        c.inv(),
        c.commit_inv(),
        c.members.contains(n),
        gives_way(c, n, t0, log, new),
        log == c.nodes[n].log.take(log.len() as int),
        c.own_entry(t, i),
        t <= t0,
        c.safe(c.nodes[n].log, t, i),
    ensures
        c.safe(log, t, i),
{
    let before = c.nodes[n].log;
    lemma_still_holds(c, before, new, t0, new.len() as int, t, i);
    if !c.blocked(t, i) {
        lemma_parts_behind(before, log, new, c.led[t], i as int);
    }
}

/// Two logs that agree with a third up to an index do not part before it.
proof fn lemma_parts_behind<T>(
    before: Seq<Entry<T>>,
    log: Seq<Entry<T>>,
    new: Seq<Entry<T>>,
    other: Seq<Entry<T>>,
    i: int,
)
    requires
        0 <= i,
        agrees(before, other, i),
        agrees(new, other, i),
        log.len() < before.len(),
        log.len() <= new.len(),
        log == before.take(log.len() as int),
        log.len() == new.len() || new[log.len() as int].term != before[log.len() as int].term,
    ensures
        agrees(log, other, i),
{
    let k = log.len() as int;
    if k <= i {
        assert(before.take(i + 1)[k] == before[k]);
        assert(new.take(i + 1)[k] == new[k]);
        assert(other.take(i + 1)[k] == other[k]);
        assert(false);
    }
    assert(log.take(i + 1) =~= before.take(i + 1));
}

/// A restart from a flush that was cut short keeps what was acknowledged and
/// committed.
proof fn lemma_cut_safe<T>(c: Cluster<T>, action: Action<T>)
    requires
        c.inv(),
        c.commit_inv(),
        action is Cut,
        c.members.len() > 1,
        c.enabled(action),
        c.after_action(action).inv(),
        follows_on(c, node_of(action), c.outcome(action).0),
    ensures
        acts_safely(c, node_of(action), c.outcome(action).0, c.outcome(action).1),
{
    let n = node_of(action);
    let saved = action->Cut_saved;
    let (s, out) = c.outcome(action);
    let before = c.nodes[n];
    let d = c.performed(n, s, out);
    let t0 = s.current_term;
    assert(c.node_ok(n));
    assert(d.node_ok(n));
    assert(c.commit_ok(n));
    lemma_on_cut(c, action);
    lemma_performed_grows(c, n, s, out);
    lemma_acks_by(c, n, s, out);
    lemma_saved_committed(c, n, saved);
    assert forall|t: u64, m: u64| !#[trigger] acknowledges(out, t, m) by {}
    assert forall|t: u64, i: u64| #[trigger] d.acked(n, t, i) && d.own_entry(t, i) implies d.safe(
        s.log,
        t,
        i,
    ) && d.safe(before.log, t, i) by {
        let m = choose|m: u64| m >= i && #[trigger] d.acks.contains((n, t, m));
        assert(c.acks.contains((n, t, m)));
        assert(c.acked(n, t, i));
        lemma_acked_within(c, n, t, i);
        lemma_own_grown(c, d, t, i);
        assert(c.safe(before.log, t, i));
        lemma_safe_grown(c, d, n, before.log, t, i);
        if s.log != before.log {
            let new = choose|new: Seq<Entry<T>>| #[trigger] gives_way(c, n, t0, s.log, new);
            lemma_left_holds(c, n, t0, s.log, new, t, i);
            lemma_safe_grown(c, d, n, s.log, t, i);
        }
    }
    if let Some(x) = before.commit_index {
        if s.log != before.log {
            let new = choose|new: Seq<Entry<T>>| #[trigger] gives_way(c, n, t0, s.log, new);
            let (t, i) = choose|t: u64, i: u64| #[trigger]
                c.chosen(t, i) && t <= before.current_term && x <= i && agrees(
                    before.log,
                    c.led[t],
                    x as int,
                );
            lemma_still_committed(c, before.log, new, t0, new.len() as int, t, i, x);
            lemma_parts_behind(before.log, s.log, new, c.led[t], x as int);
            assert(c.covered(s.log, x, t0));
        } else {
            lemma_covered_grown(c, c, s.log, x, before.current_term, t0);
        }
        assert(s.commit_index == Some(x));
        lemma_covered_grown(c, d, s.log, x, t0, t0);
    }
    if d.votes.contains_key((n, t0)) {
        if c.votes.contains_key((n, t0)) {
            assert(c.stood.contains_key((c.votes[(n, t0)], t0)));
        } else {
            assert(d.votes[(n, t0)] == n);
            assert(d.stood[(n, t0)] == before.log);
        }
    }
}

/// The answers of a node to a message announce nothing but its own commits.
proof fn lemma_deliver_announces<T>(
    c: Cluster<T>,
    n: NodeName,
    e: Envelope<T>,
    now: u64,
    timeout: u64,
)
    requires
        c.inv(),
        c.members.contains(n),
    ensures
        ({
            let (s, out) = c.nodes[n].receive(e.src, e.msg, now, timeout);
            announces_own(s, out)
        }),
{
    let before = c.nodes[n];
    let s1 = before.caught_up(e.msg, now, timeout);
    match e.msg {
        RaftMsg::RequestVote { term, candidate, last_log_index, last_log_term } => {},
        RaftMsg::RequestVoteResponse { term, vote_granted } => {
            assert(c.node_ok(n));
            lemma_vote_answers(s1, e.src, term, vote_granted, now);
        },
        RaftMsg::AppendEntries {
            term,
            leader,
            prev_log_index,
            prev_log_term,
            entries,
            leader_commit,
        } => {
            lemma_append_answers(
                s1,
                term,
                leader,
                prev_log_index,
                prev_log_term,
                entries,
                leader_commit,
                now,
                timeout,
            );
        },
        RaftMsg::AppendEntriesResponse {
            term,
            success,
            match_index,
            conflict_term,
            conflict_index,
        } => {
            lemma_response_answers(
                s1,
                e.src,
                term,
                success,
                match_index,
                conflict_term,
                conflict_index,
            );
        },
        RaftMsg::Forward { value, hops } => {
            lemma_forward_answers(s1, e.src, value, hops, now);
        },
    }
}

/// Nothing but a leader's first append answers a vote.
proof fn lemma_vote_answers<T>(
    s: RaftState<T>,
    from: NodeName,
    term: u64,
    vote_granted: bool,
    now: u64,
)
    ensures
        ({
            let (t, out) = s.on_vote_response(from, term, vote_granted, now);
            announces_own(t, out)
        }),
{
    let s2 = RaftState { votes_received: s.votes_received.insert(from), ..s };
    lemma_lead_answers(s2, now);
}

proof fn lemma_lead_answers<T>(s: RaftState<T>, now: u64)
    ensures
        ({
            let (t, out) = s.lead(now);
            announces_own(t, out)
        }),
{
    let fresh = RaftState {
        role: Role::Leader,
        leader: Some(s.node_id),
        next_index: Map::empty(),
        match_index: Map::empty(),
        pending_proposals: Seq::empty(),
        ..s
    };
    crate::raft_cluster::lemma_advance(fresh.extended(s.pending_proposals));
}

/// No append answers an append.
proof fn lemma_append_answers<T>(
    s: RaftState<T>,
    term: u64,
    leader: NodeName,
    prev: Option<u64>,
    prev_term: u64,
    entries: Seq<Entry<T>>,
    leader_commit: Option<u64>,
    now: u64,
    timeout: u64,
)
    ensures
        ({
            let (t, out) = s.on_append_entries(
                term,
                leader,
                prev,
                prev_term,
                entries,
                leader_commit,
                now,
                timeout,
            );
            announces_own(t, out)
        }),
{
    let (t, out) = s.on_append_entries(
        term,
        leader,
        prev,
        prev_term,
        entries,
        leader_commit,
        now,
        timeout,
    );
    assert forall|k: int| 0 <= k < out.len() implies !((#[trigger] out[k]).message
        is AppendEntries) by {}
}

/// A leader answers a refusal with an append of its own.
proof fn lemma_response_answers<T>(
    s: RaftState<T>,
    from: NodeName,
    term: u64,
    success: bool,
    match_index: Option<u64>,
    conflict_term: Option<u64>,
    conflict_index: Option<u64>,
)
    ensures
        ({
            let (t, out) = s.on_append_response(
                from,
                term,
                success,
                match_index,
                conflict_term,
                conflict_index,
            );
            announces_own(t, out)
        }),
{
}

/// Only a leader answers a forwarded proposal with an append.
proof fn lemma_forward_answers<T>(s: RaftState<T>, from: NodeName, value: T, hops: u8, now: u64)
    ensures
        ({
            let (t, out) = s.on_forward(from, value, hops, now);
            announces_own(t, out)
        }),
{
    crate::raft_cluster::lemma_advance(s.extended(seq![value]));
}

/// Every action preserves the commit invariant.
proof fn lemma_action_commit_inv<T>(c: Cluster<T>, action: Action<T>)
    requires
        c.inv(),
        c.commit_inv(),
        c.enabled(action),
    ensures
        c.after_action(action).inv(),
        c.after_action(action).commit_inv(),
{
    let n = node_of(action);
    let (s, out) = c.outcome(action);
    let before = c.nodes[n];
    let d = c.performed(n, s, out);
    lemma_action_inv(c, action);
    assert(c.node_ok(n));
    match action {
        Action::Deliver { node, envelope, now, timeout } => {
            let e = envelope;
            match e.msg {
                RaftMsg::RequestVote { .. } => {
                    lemma_on_request_vote(c, n, e, now, timeout);
                    if passive(c, n, s, out) {
                        lemma_match_kept(c, n, s, out);
                        lemma_deliver_announces(c, n, e, now, timeout);
                        lemma_passive_safe(c, n, s, out);
                    } else {
                        lemma_vote_safe(c, n, s, out, e.src);
                    }
                },
                RaftMsg::RequestVoteResponse { .. } => {
                    lemma_on_vote_response(c, n, e, now, timeout);
                    if exists|q: Set<NodeName>| #[trigger] wins(c, n, s, out, q) {
                        let q = choose|q: Set<NodeName>| #[trigger] wins(c, n, s, out, q);
                        assert(!passive(c, n, s, out));
                        lemma_win_safe(c, n, s, out, q);
                    } else {
                        lemma_match_kept(c, n, s, out);
                        lemma_deliver_announces(c, n, e, now, timeout);
                        lemma_passive_safe(c, n, s, out);
                    }
                },
                RaftMsg::AppendEntries { term, prev_log_index, entries, leader_commit, .. } => {
                    lemma_on_append(c, n, e, now, timeout);
                    assert(c.msg_ok(e));
                    assert(c.announced_ok(e));
                    let end = after(prev_log_index) + entries.len();
                    if takes_over(c, n, s, out, end) && s.current_term == term && (commit_kept(
                        before,
                        s,
                    ) || learned(before, s, leader_commit)) && verified_index(
                        prev_log_index,
                        entries.len() as int,
                    ) is Some {
                        lemma_take_over_safe(c, n, s, out, end, leader_commit);
                    } else {
                        lemma_match_kept(c, n, s, out);
                        lemma_deliver_announces(c, n, e, now, timeout);
                        lemma_passive_safe(c, n, s, out);
                    }
                },
                RaftMsg::AppendEntriesResponse { .. } => {
                    lemma_on_append_response(c, n, e, now, timeout);
                    lemma_deliver_announces(c, n, e, now, timeout);
                    if s.role == Role::Leader && s.match_index != before.match_index {
                        let m = choose|m: u64|
                            #![trigger before.match_index.insert(e.src, Some(m))]
                            s.match_index == before.match_index.insert(e.src, Some(m))
                                && c.acks.contains((e.src, s.current_term, m));
                        assert(c.msg_ok(e));
                        assert(c.match_ok(n));
                        assert(d.match_ok(n)) by {
                            assert forall|v: NodeName| #[trigger]
                                s.match_index.contains_key(v) && s.match_index[v] is Some implies
                                d.members.contains(v) && d.acks.contains(
                                (v, s.current_term, s.match_index[v]->0),
                            ) by {
                                if v != e.src {
                                    assert(before.match_index.contains_key(v));
                                    assert(c.acks.contains(
                                        (v, s.current_term, before.match_index[v]->0),
                                    ));
                                } else {
                                    assert(c.acks.contains((v, s.current_term, m)));
                                }
                            }
                        }
                    } else {
                        lemma_match_kept(c, n, s, out);
                    }
                    lemma_passive_safe(c, n, s, out);
                },
                RaftMsg::Forward { .. } => {
                    lemma_on_forward(c, n, e, now, timeout);
                    if extends(c, n, s, out) && extended_by(before, s) {
                        lemma_extend_safe(c, n, s, out);
                    } else {
                        lemma_match_kept(c, n, s, out);
                        lemma_deliver_announces(c, n, e, now, timeout);
                        lemma_passive_safe(c, n, s, out);
                    }
                },
            }
        },
        Action::Tick { node, now, timeout } => {
            lemma_tick_commit_inv(c, n, now, timeout);
        },
        Action::Propose { node, value, now } => {
            lemma_on_propose(c, n, value, now);
            if extends(c, n, s, out) && extended_by(before, s) {
                lemma_extend_safe(c, n, s, out);
            } else {
                lemma_match_kept(c, n, s, out);
                assert(before.role != Role::Leader) by {
                    if before.role == Role::Leader {
                        let s2 = before.extended(seq![value]);
                        crate::raft_cluster::lemma_advance(s2);
                        assert(s.log.len() == before.log.len() + 1);
                    }
                }
                assert(announces_own(s, out));
                lemma_passive_safe(c, n, s, out);
            }
        },
        Action::Collect { node } => {
            lemma_collect_safe(c, n);
        },
        Action::Restart { node, saved, commit, now, timeout } => {
            lemma_on_restart(c, n, saved, commit, now, timeout);
            lemma_restores(
                c,
                n,
                before.current_term,
                before.voted_for,
                saved,
                commit,
                now,
                timeout,
            );
            lemma_restored_safe(c, n, s);
        },
        Action::Cut { saved, now, timeout, .. } => {
            if c.members.len() > 1 {
                lemma_cut_safe(c, action);
            } else {
                lemma_on_lone_cut(c, action);
                lemma_restores(
                    c,
                    n,
                    s.current_term,
                    s.voted_for,
                    saved,
                    before.commit_index,
                    now,
                    timeout,
                );
                if passive(c, n, s, out) {
                    lemma_restored_safe(c, n, s);
                } else {
                    let q = choose|q: Set<NodeName>| #[trigger] wins(c, n, s, out, q);
                    lemma_win_safe(c, n, s, out, q);
                }
            }
        },
    }
    if !(action is Tick) {
        lemma_commit_inv_performed(c, n, s, out);
    }
}

/// A tick preserves the commit invariant: first what is due is done, then what
/// was not yet applied is queued.
proof fn lemma_tick_commit_inv<T>(c: Cluster<T>, n: NodeName, now: u64, timeout: u64)
    requires
        c.inv(),
        c.commit_inv(),
        c.enabled(Action::Tick { node: n, now, timeout }),
    ensures
        c.after_action(Action::Tick { node: n, now, timeout }).commit_inv(),
{
    let (s, out) = c.nodes[n].lapse(now, timeout);
    let d = c.performed(n, s, out);
    assert(c.node_ok(n));
    lemma_on_lapse(c, n, now, timeout);
    if exists|q: Set<NodeName>| #[trigger] wins(c, n, s, out, q) {
        let q = choose|q: Set<NodeName>| #[trigger] wins(c, n, s, out, q);
        assert(!passive(c, n, s, out));
        lemma_win(c, n, s, out, q);
        lemma_win_safe(c, n, s, out, q);
    } else if stands(c, n, s, out) {
        lemma_stand(c, n, s, out);
        lemma_stand_safe(c, n, s, out);
    } else {
        lemma_passive(c, n, s, out);
        lemma_match_kept(c, n, s, out);
        assert(announces_own(s, out));
        lemma_passive_safe(c, n, s, out);
    }
    lemma_commit_inv_performed(c, n, s, out);
    lemma_on_reapply(d, n);
    lemma_passive(d, n, d.nodes[n].reapplied(), Seq::empty());
    lemma_reapply_safe(d, n);
    lemma_commit_inv_performed(d, n, d.nodes[n].reapplied(), Seq::empty());
    lemma_tick_in_two(c, n, now, timeout);
}

/// What is queued late is chosen.
proof fn lemma_reapply_safe<T>(c: Cluster<T>, n: NodeName)
    requires
        c.inv(),
        c.commit_inv(),
        follows_on(c, n, c.nodes[n].reapplied()),
        c.performed(n, c.nodes[n].reapplied(), Seq::empty()).inv(),
    ensures
        acts_safely(c, n, c.nodes[n].reapplied(), Seq::empty()),
{
    let out = Seq::<Packet<RaftMsg<T>>>::empty();
    let before = c.nodes[n];
    let s = before.reapplied();
    let d = c.performed(n, s, out);
    assert(c.node_ok(n));
    assert(d.node_ok(n));
    assert(c.commit_ok(n));
    assert(c.match_ok(n));
    lemma_performed_grows(c, n, s, out);
    assert(s.log.take(before.log.len() as int) =~= before.log);
    lemma_acks_kept_longer(c, n, s, out);
    if s == before {
        lemma_commit_kept_ok(c, n, s, out);
    } else {
        let x = s.commit_index->0;
        lemma_covered_grown(c, d, before.log, x, before.current_term, s.current_term);
        lemma_commit_moved_ok(c, n, s, out, x);
    }
    lemma_match_kept(c, n, s, out);
    if d.votes.contains_key((n, s.current_term)) {
        assert(c.votes.contains_key((n, s.current_term)));
        assert(c.stood.contains_key((c.votes[(n, s.current_term)], s.current_term)));
    }
}

/// Taking decisions out of a node changes nothing else.
proof fn lemma_collect_safe<T>(c: Cluster<T>, n: NodeName)
    requires
        c.inv(),
        c.commit_inv(),
        c.enabled(Action::Collect { node: n }),
        c.after_action(Action::Collect { node: n }).inv(),
        follows_on(c, n, c.outcome(Action::Collect { node: n }).0),
    ensures
        ({
            let (s, out) = c.outcome(Action::Collect { node: n });
            acts_safely(c, n, s, out)
        }),
{
    let (s, out) = c.outcome(Action::<T>::Collect { node: n });
    let before = c.nodes[n];
    let d = c.performed(n, s, out);
    assert(c.node_ok(n));
    assert(d.node_ok(n));
    assert(c.commit_ok(n));
    assert(c.match_ok(n));
    lemma_performed_grows(c, n, s, out);
    assert(s.log.take(before.log.len() as int) =~= before.log);
    lemma_acks_kept_longer(c, n, s, out);
    if let Some(x) = s.commit_index {
        lemma_covered_grown(c, d, before.log, x, before.current_term, s.current_term);
    }
    assert(d.match_ok(n)) by {
        if s.role == Role::Leader {
            assert forall|v: NodeName| #[trigger]
                s.match_index.contains_key(v) && s.match_index[v] is Some implies
                d.members.contains(v) && d.acks.contains(
                (v, s.current_term, s.match_index[v]->0),
            ) by {
                assert(before.match_index.contains_key(v));
                assert(c.acks.contains((v, s.current_term, s.match_index[v]->0)));
            }
        }
    }
    if d.votes.contains_key((n, s.current_term)) {
        assert(c.votes.contains_key((n, s.current_term)));
        assert(c.stood.contains_key((c.votes[(n, s.current_term)], s.current_term)));
    }
}

/// The two invariants together.
#[verifier::opaque]
spec fn in_shape<T>(c: Cluster<T>) -> bool {
    c.inv() && c.commit_inv()
}

/// The invariants hold of fresh nodes.
proof fn lemma_init_shape<T>(c: Cluster<T>)
    requires
        c.init(),
    ensures
        in_shape(c),
{
    reveal(in_shape);
    lemma_init_inv(c);
    assert forall|n: NodeName| #[trigger] c.members.contains(n) implies c.match_ok(n)
        && c.commit_ok(n) by {
        assert(c.node_ok(n));
    }
}

/// Every action keeps the invariants.
proof fn lemma_action_shape<T>(c: Cluster<T>, action: Action<T>)
    requires
        in_shape(c),
        c.enabled(action),
    ensures
        in_shape(c.after_action(action)),
{
    reveal(in_shape);
    lemma_action_commit_inv(c, action);
}

/// The invariants go from one state of a run to the next.
proof fn lemma_next_shape<T>(states: Seq<Cluster<T>>, actions: Seq<Action<T>>, i: int)
    requires
        run(states, actions),
        0 <= i < actions.len(),
        in_shape(states[i]),
    ensures
        in_shape(states[i + 1]),
{
    let action = actions[i];
    lemma_action_shape(states[i], action);
}

/// The invariants hold in every state of a run.
proof fn lemma_run_shape<T>(states: Seq<Cluster<T>>, actions: Seq<Action<T>>, i: int)
    requires
        run(states, actions),
        0 <= i < states.len(),
    ensures
        in_shape(states[i]),
    decreases i,
{
    if i == 0 {
        lemma_init_shape(states[0]);
    } else {
        lemma_run_shape(states, actions, i - 1);
        lemma_next_shape(states, actions, i - 1);
    }
}

/// Two chosen entries of a slot are the same.
proof fn lemma_chosen_agree<T>(c: Cluster<T>, t1: u64, i1: u64, t2: u64, i2: u64, slot: u64)
    requires
        c.inv(),
        c.commit_inv(),
        c.chosen(t1, i1),
        c.chosen(t2, i2),
        slot <= i1,
        slot <= i2,
        t1 <= t2,
    ensures
        c.led[t1][slot as int] == c.led[t2][slot as int],
{
    if t1 < t2 {
        lemma_chosen_not_blocked(c, t1, i1);
        assert(c.leaders.contains_key(t2));
        assert(c.safe(c.base(t2), t1, i1));
        assert(c.leader_ok(t2));
        let base = c.base(t2);
        assert(base.take(i1 + 1)[slot as int] == base[slot as int]);
        assert(c.led[t1].take(i1 + 1)[slot as int] == c.led[t1][slot as int]);
        assert(c.led[t2].take(base.len() as int)[slot as int] == c.led[t2][slot as int]);
    }
}

/// State machine safety: whatever a node delivered for a slot at any time in a
/// run, no node delivers another value for it, whatever messages the network
/// lost, repeated, delayed or reordered, and whichever nodes restarted, be it in
/// the midst of a flush.
pub proof fn state_machine_safety<T>(
    states: Seq<Cluster<T>>,
    actions: Seq<Action<T>>,
    i: int,
    n: NodeName,
    m: NodeName,
    slot: u64,
    a: T,
    b: T,
)
    requires
        run(states, actions),
        0 <= i < states.len(),
        states[i].decided.contains((n, slot, a)),
        states[i].decided.contains((m, slot, b)),
    ensures
        a == b,
{
    lemma_run_shape(states, actions, i);
    reveal(in_shape);
    let c = states[i];
    assert(c.decision_ok(slot, a));
    assert(c.decision_ok(slot, b));
    let (t1, i1) = choose|t: u64, i: u64| #[trigger]
        c.chosen(t, i) && slot <= i && c.led[t][slot as int].value == a;
    let (t2, i2) = choose|t: u64, i: u64| #[trigger]
        c.chosen(t, i) && slot <= i && c.led[t][slot as int].value == b;
    if t1 <= t2 {
        lemma_chosen_agree(c, t1, i1, t2, i2, slot);
    } else {
        lemma_chosen_agree(c, t2, i2, t1, i1, slot);
    }
}

/// Leader completeness: what a node committed, every leader of a later term
/// holds.
pub proof fn leader_completeness<T>(
    states: Seq<Cluster<T>>,
    actions: Seq<Action<T>>,
    i: int,
    n: NodeName,
    m: NodeName,
    x: u64,
)
    requires
        run(states, actions),
        0 <= i < states.len(),
        states[i].members.contains(n),
        states[i].members.contains(m),
        states[i].nodes[n].commit_index == Some(x),
        states[i].nodes[m].role == Role::Leader,
        states[i].nodes[m].current_term > states[i].nodes[n].current_term,
    ensures
        x < states[i].nodes[m].log.len(),
        states[i].nodes[m].log.take(x + 1) == states[i].nodes[n].log.take(x + 1),
{
    lemma_run_shape(states, actions, i);
    reveal(in_shape);
    let c = states[i];
    assert(c.commit_ok(n));
    assert(c.node_ok(m));
    let s = c.nodes[n];
    let t2 = c.nodes[m].current_term;
    let led2 = c.led[t2];
    let (t, k) = choose|t: u64, k: u64| #[trigger]
        c.chosen(t, k) && t <= s.current_term && x <= k && agrees(s.log, c.led[t], x as int);
    lemma_chosen_not_blocked(c, t, k);
    assert(c.leaders.contains_key(t2));
    assert(c.safe(c.base(t2), t, k));
    assert(c.leader_ok(t2));
    let base = c.base(t2);
    assert(led2.take(x + 1) =~= led2.take(base.len() as int).take(x + 1));
    assert(base.take(x + 1) =~= base.take(k + 1).take(x + 1));
    assert(c.led[t].take(x + 1) =~= c.led[t].take(k + 1).take(x + 1));
}

} // verus!
