//! The service in front of a node: its log of decisions, the order in which a
//! watch releases them, and its answers.
use crate::client::{reads_as, retry_after, transient, understood, Retry};
use crate::config::{NodeId, NodeName};
use crate::node::{Decided, NodeAlgorithm, NodeRole, NodeState};
use crate::text::{decimal, u64_to_string};
use crate::types::{
    names_are_read_back, Algorithm, ClusterStatus, Decision, Role, RpcCode, StatusResponse,
};
use crate::value::{opt, Value};
use std::collections::HashMap;
use vstd::prelude::*;
use vstd::string::*;

verus! {

broadcast use vstd::std_specs::hash::group_hash_axioms;

/// Default page size when the client does not specify one.
pub const DEFAULT_GET_LIMIT: usize = 1000;

/// How many live decisions wait for a watcher at most. Larger values cost a bit
/// of memory but tolerate slow consumers without forcing them to reconnect.
pub const DECISION_BROADCAST_CAPACITY: usize = 4096;

/// What a watcher that fell too far behind is told.
pub const LAGGED: &'static str =
    "watch lagged behind, reconnect with start_index = next expected slot";

/// A second copy of a decision.
fn copy_decision(d: &Decision) -> (copy: Decision)
    ensures
        copy@ == d@,
{
    Decision { slot: d.slot, payload: d.payload.copied() }
}

/// Append-only in-memory log of decisions, in the order of their slots.
pub struct DecisionLog {
    pub entries: Vec<Decision>,
}

/// The decisions of a list, by slot.
pub open spec fn by_slot(entries: Seq<Decision>) -> Map<u64, Seq<u8>> {
    Map::new(
        |slot: u64| exists|i: int| 0 <= i < entries.len() && (#[trigger] entries[i]).slot == slot,
        |slot: u64|
            {
                let i = choose|i: int| 0 <= i < entries.len() && (#[trigger] entries[i]).slot == slot;
                entries[i].payload@
            },
    )
}

/// Whether the slots of a list rise.
pub open spec fn rising(entries: Seq<Decision>) -> bool {
    forall|i: int, j: int| 0 <= i < j < entries.len() ==> entries[i].slot < entries[j].slot
}

proof fn lemma_by_slot(entries: Seq<Decision>, i: int)
    requires
        rising(entries),
        0 <= i < entries.len(),
    ensures
        by_slot(entries).contains_key(entries[i].slot),
        by_slot(entries)[entries[i].slot] == entries[i].payload@,
{
    let slot = entries[i].slot;
    let k = choose|k: int| 0 <= k < entries.len() && (#[trigger] entries[k]).slot == slot;
    assert(entries[i].slot == slot);
    if k < i {
        assert(entries[k].slot < entries[i].slot);
    } else if i < k {
        assert(entries[i].slot < entries[k].slot);
    }
}

/// Inserting a decision in its place adds it to the map.
proof fn lemma_inserted(entries: Seq<Decision>, at: int, d: Decision)
    requires
        rising(entries),
        0 <= at <= entries.len(),
        forall|i: int| 0 <= i < at ==> (#[trigger] entries[i]).slot < d.slot,
        forall|i: int| at <= i < entries.len() ==> d.slot < (#[trigger] entries[i]).slot,
    ensures
        rising(entries.insert(at, d)),
        by_slot(entries.insert(at, d)) == by_slot(entries).insert(d.slot, d.payload@),
{
    let after = entries.insert(at, d);
    assert forall|i: int, j: int| 0 <= i < j < after.len() implies after[i].slot
        < after[j].slot by {
        let a = if i < at {
            i
        } else {
            i - 1
        };
        let b = if j < at {
            j
        } else {
            j - 1
        };
        if i != at && j != at {
            assert(after[i] == entries[a] && after[j] == entries[b]);
        } else if i == at {
            assert(after[j] == entries[b]);
        } else {
            assert(after[i] == entries[a]);
        }
    }
    assert(after[at] == d);
    assert forall|slot: u64| #[trigger] by_slot(after).contains_key(slot) == by_slot(entries).insert(
        d.slot,
        d.payload@,
    ).contains_key(slot) by {
        if by_slot(after).contains_key(slot) && slot != d.slot {
            let i = choose|i: int| 0 <= i < after.len() && (#[trigger] after[i]).slot == slot;
            let a = if i < at {
                i
            } else {
                i - 1
            };
            assert(entries[a] == after[i]);
        }
        if by_slot(entries).contains_key(slot) {
            let i = choose|i: int| 0 <= i < entries.len() && (#[trigger] entries[i]).slot == slot;
            let a = if i < at {
                i
            } else {
                i + 1
            };
            assert(after[a] == entries[i]);
        }
    }
    assert forall|slot: u64| by_slot(after).contains_key(slot) implies #[trigger] by_slot(
        after,
    )[slot] == by_slot(entries).insert(d.slot, d.payload@)[slot] by {
        let i = choose|i: int| 0 <= i < after.len() && (#[trigger] after[i]).slot == slot;
        lemma_by_slot(after, i);
        if slot != d.slot {
            let a = if i < at {
                i
            } else {
                i - 1
            };
            assert(entries[a] == after[i]);
            lemma_by_slot(entries, a);
        }
    }
    assert(by_slot(after) =~= by_slot(entries).insert(d.slot, d.payload@));
}

/// How many decisions follow one another from `start` on, at most `limit`.
pub open spec fn run_length(log: Map<u64, Seq<u8>>, start: int, limit: nat) -> nat
    decreases limit,
{
    if limit == 0 || start > u64::MAX || !log.contains_key(start as u64) {
        0
    } else {
        1 + run_length(log, start + 1, (limit - 1) as nat)
    }
}

/// Where the next page starts.
pub open spec fn page_end(start: u64, count: nat) -> u64 {
    if start + count > u64::MAX {
        u64::MAX
    } else {
        (start + count) as u64
    }
}

impl View for DecisionLog {
    type V = Map<u64, Seq<u8>>;

    open spec fn view(&self) -> Map<u64, Seq<u8>> {
        by_slot(self.entries@)
    }
}

impl DecisionLog {
    /// The entries are in the order of their slots, each slot once.
    pub open spec fn wf(&self) -> bool {
        rising(self.entries@)
    }

    /// An empty log.
    pub fn new() -> (log: Self)
        ensures
            log.wf(),
            log.entries.len() == 0,
            log@ == Map::<u64, Seq<u8>>::empty(),
    {
        let log = DecisionLog { entries: Vec::new() };
        assert(log@ =~= Map::empty());
        log
    }

    /// The position of a slot, or the one where it belongs.
    fn search(&self, slot: u64) -> (at: usize)
        requires
            self.wf(),
        ensures
            at <= self.entries.len(),
            forall|i: int| 0 <= i < at ==> (#[trigger] self.entries[i]).slot < slot,
            forall|i: int| at <= i < self.entries.len() ==> slot <= (#[trigger] self.entries[i]).slot,
    {
        let mut low: usize = 0;
        let mut high: usize = self.entries.len();
        while low < high
            invariant
                self.wf(),
                low <= high <= self.entries.len(),
                forall|i: int| 0 <= i < low ==> (#[trigger] self.entries[i]).slot < slot,
                forall|i: int|
                    high <= i < self.entries.len() ==> slot <= (#[trigger] self.entries[i]).slot,
            decreases high - low,
        {
            let mid: usize = low + (high - low) / 2;
            if self.entries[mid].slot < slot {
                low = mid + 1;
            } else {
                high = mid;
            }
        }
        low
    }

    /// Adds a decision where its slot belongs. A slot that is there already is
    /// left as it is. Returns whether the decision is new, and so has to be told
    /// to watchers.
    pub fn append(&mut self, decision: Decision) -> (fresh: bool)
        requires
            old(self).wf(),
        ensures
            final(self).wf(),
            fresh == !old(self)@.contains_key(decision.slot),
            final(self)@ == (if fresh {
                old(self)@.insert(decision.slot, decision.payload@)
            } else {
                old(self)@
            }),
            final(self)@ == appended(old(self)@, decision.slot, decision.payload@),
            fresh <==> forall|i: int|
                0 <= i < old(self).entries.len() ==> (#[trigger] old(self).entries[i]).slot
                    != decision.slot,
            !fresh ==> final(self).entries@ == old(self).entries@,
            fresh ==> exists|at: int|
                0 <= at <= old(self).entries.len() && final(self).entries@
                    == #[trigger] old(self).entries@.insert(at, decision),
    {
        let at: usize = self.search(decision.slot);
        if at < self.entries.len() && self.entries[at].slot == decision.slot {
            proof {
                lemma_by_slot(self.entries@, at as int);
                assert(old(self).entries[at as int].slot == decision.slot);
            }
            return false;
        }
        proof {
            if self@.contains_key(decision.slot) {
                let i = choose|i: int|
                    0 <= i < self.entries.len() && (#[trigger] self.entries@[i]).slot
                        == decision.slot;
                if i > at {
                    assert(self.entries@[at as int].slot < self.entries@[i].slot);
                }
            }
            assert forall|i: int| at <= i < self.entries.len() implies decision.slot < (
            #[trigger] self.entries@[i]).slot by {
                if i > at {
                    assert(self.entries@[at as int].slot < self.entries@[i].slot);
                }
            }
            lemma_inserted(self.entries@, at as int, decision);
        }
        self.entries.insert(at, decision);
        true
    }

    /// All decisions, in the order of their slots.
    pub fn snapshot(&self) -> (list: Vec<Decision>)
        requires
            self.wf(),
        ensures
            rising(list@),
            by_slot(list@) == self@,
            list.len() == self.entries.len(),
            forall|i: int|
                0 <= i < list.len() ==> (#[trigger] list[i]).slot == self.entries[i].slot
                    && list[i].payload@ == self.entries[i].payload@,
    {
        let mut list: Vec<Decision> = Vec::new();
        let mut i: usize = 0;
        while i < self.entries.len()
            invariant
                i <= self.entries.len(),
                list.len() == i,
                forall|k: int| 0 <= k < i ==> (#[trigger] list[k])@ == self.entries[k]@,
            decreases self.entries.len() - i,
        {
            list.push(copy_decision(&self.entries[i]));
            i += 1;
        }
        proof {
            assert forall|a: int, b: int| 0 <= a < b < list.len() implies list[a].slot
                < list[b].slot by {
                assert(list[a]@ == self.entries[a]@);
                assert(list[b]@ == self.entries[b]@);
            }
            assert forall|slot: u64| by_slot(list@).contains_key(slot) == self@.contains_key(
                slot,
            ) by {
                if by_slot(list@).contains_key(slot) {
                    let k = choose|k: int| 0 <= k < list.len() && (#[trigger] list@[k]).slot == slot;
                    assert(list[k]@ == self.entries[k]@);
                    assert(self.entries@[k].slot == slot);
                }
                if self@.contains_key(slot) {
                    let k = choose|k: int|
                        0 <= k < self.entries.len() && (#[trigger] self.entries@[k]).slot == slot;
                    assert(list[k]@ == self.entries[k]@);
                    assert(list@[k].slot == slot);
                }
            }
            assert forall|slot: u64| by_slot(list@).contains_key(slot) implies #[trigger] by_slot(
                list@,
            )[slot] == self@[slot] by {
                let k = choose|k: int| 0 <= k < list.len() && (#[trigger] list@[k]).slot == slot;
                lemma_by_slot(list@, k);
                assert(list[k]@ == self.entries[k]@);
                lemma_by_slot(self.entries@, k);
            }
            assert(by_slot(list@) =~= self@);
            assert forall|k: int| 0 <= k < list.len() implies (#[trigger] list[k]).slot
                == self.entries[k].slot && list[k].payload@ == self.entries[k].payload@ by {
                assert(list[k]@ == self.entries[k]@);
            }
        }
        list
    }

    /// A page of decisions: those that follow one another from `start_slot` on,
    /// at most `limit` of them, and the slot behind them. A page stops at a slot
    /// that is not decided yet.
    pub fn range(&self, start_slot: u64, limit: usize) -> (r: (Vec<Decision>, u64))
        requires
            self.wf(),
        ensures
            r.0.len() == run_length(self@, start_slot as int, limit as nat),
            forall|i: int|
                0 <= i < r.0.len() ==> (#[trigger] r.0[i]).slot == start_slot + i
                    && self@.contains_key(r.0[i].slot) && r.0[i].payload@ == self@[r.0[i].slot],
            r.1 == page_end(start_slot, r.0.len() as nat),
            r.0.len() <= limit,
            r.0.len() < limit ==> start_slot + r.0.len() > u64::MAX || !self@.contains_key(
                (start_slot + r.0.len()) as u64,
            ),
            start_slot + r.0.len() <= u64::MAX ==> r.1 == start_slot + r.0.len(),
            start_slot + r.0.len() > u64::MAX ==> r.1 == u64::MAX,
    {
        proof {
            pages_stop_at_gaps(self@, start_slot, limit as nat);
        }
        let mut out: Vec<Decision> = Vec::new();
        let mut next_slot: u64 = start_slot;
        let mut at: usize = self.search(start_slot);
        let ghost log = self@;
        let ghost total = run_length(log, start_slot as int, limit as nat);
        proof {
            if at < self.entries.len() && self.entries[at as int].slot == start_slot {
                lemma_by_slot(self.entries@, at as int);
            }
        }
        if at < self.entries.len() && self.entries[at].slot != start_slot || at
            == self.entries.len() {
            proof {
                if log.contains_key(start_slot) {
                    let i = choose|i: int|
                        0 <= i < self.entries.len() && (#[trigger] self.entries@[i]).slot
                            == start_slot;
                    if i > at {
                        assert(self.entries@[at as int].slot < self.entries@[i].slot);
                    }
                }
            }
            return (out, next_slot);
        }
        while at < self.entries.len() && out.len() < limit && self.entries[at].slot == next_slot
            invariant
                self.wf(),
                log == self@,
                at <= self.entries.len(),
                out.len() <= limit,
                total == run_length(log, start_slot as int, limit as nat),
                total == out.len() + run_length(
                    log,
                    start_slot + out.len(),
                    (limit - out.len()) as nat,
                ),
                start_slot + out.len() <= u64::MAX + 1,
                next_slot == page_end(start_slot, out.len() as nat),
                forall|i: int|
                    0 <= i < out.len() ==> (#[trigger] out[i]).slot == start_slot + i
                        && log.contains_key(out[i].slot) && out[i].payload@ == log[out[i].slot],
                forall|i: int|
                    0 <= i < at ==> (#[trigger] self.entries[i]).slot < start_slot + out.len(),
                forall|i: int|
                    at <= i < self.entries.len() ==> start_slot + out.len() <= (
                    #[trigger] self.entries[i]).slot,
            decreases self.entries.len() - at,
        {
            proof {
                lemma_by_slot(self.entries@, at as int);
                assert(start_slot + out.len() <= self.entries[at as int].slot);
                assert forall|i: int| at + 1 <= i < self.entries.len() implies start_slot
                    + out.len() + 1 <= (#[trigger] self.entries[i]).slot by {
                    assert(self.entries@[at as int].slot < self.entries@[i].slot);
                }
            }
            let decision: Decision = copy_decision(&self.entries[at]);
            assert(decision@ == self.entries[at as int]@);
            out.push(decision);
            next_slot = next_slot.saturating_add(1);
            at += 1;
        }
        proof {
            let here = start_slot + out.len();
            if out.len() < limit && here <= u64::MAX && log.contains_key(here as u64) {
                let i = choose|i: int|
                    0 <= i < self.entries.len() && (#[trigger] self.entries@[i]).slot == here as u64;
                assert(at <= i);
                if i > at {
                    assert(self.entries@[at as int].slot < self.entries@[i].slot);
                }
            }
        }
        (out, next_slot)
    }
}

/// Delivery at least once is enough: a decision that is appended again changes
/// nothing.
pub open spec fn appended(log: Map<u64, Seq<u8>>, slot: u64, payload: Seq<u8>) -> Map<u64, Seq<u8>> {
    if log.contains_key(slot) {
        log
    } else {
        log.insert(slot, payload)
    }
}

/// A decision that is delivered again, and decisions that are delivered out of
/// order, leave the same log: appending twice is appending once, and two slots
/// can be appended in either order.
pub proof fn delivery_order_does_not_matter(
    log: Map<u64, Seq<u8>>,
    a: u64,
    x: Seq<u8>,
    b: u64,
    y: Seq<u8>,
)
    requires
        a != b,
    ensures
        appended(appended(log, a, x), a, x) == appended(log, a, x),
        appended(appended(log, a, x), b, y) == appended(appended(log, b, y), a, x),
{
    assert(appended(appended(log, a, x), b, y) =~= appended(appended(log, b, y), a, x));
}

/// Pages join: a page of `m` decisions, and one of `n` from where it ended, are
/// the page of `m + n`.
pub proof fn pages_join(log: Map<u64, Seq<u8>>, start: int, m: nat, n: nat)
    ensures
        run_length(log, start, m + n) == run_length(log, start, m) + (if run_length(log, start, m)
            < m {
            0
        } else {
            run_length(log, start + m, n)
        }),
        run_length(log, start, m) <= m,
    decreases m,
{
    if m > 0 && start <= u64::MAX && log.contains_key(start as u64) {
        pages_join(log, start + 1, (m - 1) as nat, n);
        assert((m + n - 1) as nat == (m - 1) as nat + n);
    }
}

/// A page stops only at a gap: it holds no more than its limit, every slot in it
/// is in the log, and where it holds less than its limit, the slot behind it is not
/// in the log, or there is no slot behind it.
pub proof fn pages_stop_at_gaps(log: Map<u64, Seq<u8>>, start: u64, limit: nat)
    ensures
        run_length(log, start as int, limit) <= limit,
        start + run_length(log, start as int, limit) <= u64::MAX + 1,
        forall|slot: u64|
            start <= slot < start + run_length(log, start as int, limit)
                ==> #[trigger] log.contains_key(slot),
        run_length(log, start as int, limit) < limit ==> start + run_length(
            log,
            start as int,
            limit,
        ) > u64::MAX || !log.contains_key((start + run_length(log, start as int, limit)) as u64),
{
    lemma_pages_stop(log, start as int, limit);
}

proof fn lemma_pages_stop(log: Map<u64, Seq<u8>>, start: int, limit: nat)
    requires
        0 <= start <= u64::MAX + 1,
    ensures
        ({
            let count = run_length(log, start, limit);
            &&& count <= limit
            &&& start + count <= u64::MAX + 1
            &&& forall|slot: u64|
                start <= slot < start + count ==> #[trigger] log.contains_key(slot)
            &&& count < limit ==> start + count > u64::MAX || !log.contains_key(
                (start + count) as u64,
            )
        }),
    decreases limit,
{
    if limit > 0 && start <= u64::MAX && log.contains_key(start as u64) {
        lemma_pages_stop(log, start + 1, (limit - 1) as nat);
    }
}

/// Where a reader stands that followed a number of pages.
pub open spec fn read_up_to(log: Map<u64, Seq<u8>>, start: u64, limit: nat, pages: nat) -> u64
    decreases pages,
{
    if pages == 0 {
        start
    } else {
        let at = read_up_to(log, start, limit, (pages - 1) as nat);
        page_end(at, run_length(log, at as int, limit))
    }
}

/// A reader that follows the pages reads every decision up to the first gap: where
/// all slots up to an end are in the log, that many pages lead to it, and no page
/// leads past a slot that is missing.
pub proof fn readers_get_every_decision(
    log: Map<u64, Seq<u8>>,
    start: u64,
    end: u64,
    limit: nat,
    pages: nat,
)
    requires
        start <= end,
        limit > 0,
        forall|slot: u64| start <= slot < end ==> #[trigger] log.contains_key(slot),
    ensures
        pages >= end - start ==> read_up_to(log, start, limit, pages) >= end,
        !log.contains_key(end) ==> read_up_to(log, start, limit, pages) <= end,
        pages <= end - start ==> read_up_to(log, start, limit, pages) >= start + pages,
    decreases pages,
{
    if pages > 0 {
        readers_get_every_decision(log, start, end, limit, (pages - 1) as nat);
        let at = read_up_to(log, start, limit, (pages - 1) as nat);
        pages_stop_at_gaps(log, at, limit);
        let count = run_length(log, at as int, limit);
        if at < end {
            assert(log.contains_key(at));
            assert(count >= 1);
        }
        if !log.contains_key(end) && at + count > end {
            assert(at <= end < at + count);
        }
    }
}

/// The log holds exactly its entries: a slot is in it exactly if an entry has it,
/// with the payload of that entry.
pub proof fn logs_hold_their_entries(log: DecisionLog)
    requires
        log.wf(),
    ensures
        forall|i: int|
            0 <= i < log.entries.len() ==> log@.contains_key((#[trigger] log.entries[i]).slot)
                && log@[log.entries[i].slot] == log.entries[i].payload@,
        forall|slot: u64| #[trigger]
            log@.contains_key(slot) ==> exists|i: int|
                0 <= i < log.entries.len() && (#[trigger] log.entries[i]).slot == slot,
        forall|i: int, j: int|
            0 <= i < j < log.entries.len() ==> log.entries[i].slot < log.entries[j].slot,
{
    assert forall|i: int| 0 <= i < log.entries.len() implies log@.contains_key(
        (#[trigger] log.entries[i]).slot,
    ) && log@[log.entries[i].slot] == log.entries[i].payload@ by {
        lemma_by_slot(log.entries@, i);
    }
    assert forall|slot: u64| #[trigger] log@.contains_key(slot) implies exists|i: int|
        0 <= i < log.entries.len() && (#[trigger] log.entries[i]).slot == slot by {
        let i = choose|i: int|
            0 <= i < log.entries@.len() && (#[trigger] log.entries@[i]).slot == slot;
        assert(log.entries[i].slot == slot);
    }
}

/// The order in which a watch releases decisions: slot by slot, from where it
/// began; what comes too early waits.
pub struct WatchBuffer {
    pub next_slot: u64,
    pub buffered: HashMap<u64, Decision>,
}

/// The model of [`WatchBuffer`].
#[verifier::ext_equal]
pub struct Watch {
    pub next: u64,
    pub held: Map<u64, Seq<u8>>,
}

/// The slot behind a slot; slots end with the last number there is.
pub open spec fn behind(slot: u64) -> u64 {
    if slot == u64::MAX {
        slot
    } else {
        (slot + 1) as u64
    }
}

/// Releases what is held, as far as it follows: the rest of the watch, and the
/// decisions released.
pub open spec fn released(watch: Watch) -> (Watch, Seq<(u64, Seq<u8>)>)
    decreases watch.held.dom().len(),
    when watch.held.dom().finite()
{
    if watch.held.contains_key(watch.next) {
        let payload = watch.held[watch.next];
        let (rest, more) = released(
            Watch { next: behind(watch.next), held: watch.held.remove(watch.next) },
        );
        (rest, seq![(watch.next, payload)] + more)
    } else {
        (watch, Seq::empty())
    }
}

/// Takes in a decision: one below the next slot is dropped, the next one is
/// released with what follows it, a later one is held unless one is held for its
/// slot.
pub open spec fn offered(watch: Watch, slot: u64, payload: Seq<u8>) -> (Watch, Seq<(u64, Seq<u8>)>) {
    if slot < watch.next {
        (watch, Seq::empty())
    } else if slot == watch.next {
        let (rest, more) = released(Watch { next: behind(slot), ..watch });
        (rest, seq![(slot, payload)] + more)
    } else if watch.held.contains_key(slot) {
        (watch, Seq::empty())
    } else {
        (Watch { held: watch.held.insert(slot, payload), ..watch }, Seq::empty())
    }
}

/// The views of a list of decisions.
pub open spec fn decision_views(list: Seq<Decision>) -> Seq<(u64, Seq<u8>)> {
    list.map_values(|d: Decision| d@)
}

impl View for WatchBuffer {
    type V = Watch;

    open spec fn view(&self) -> Watch {
        Watch {
            next: self.next_slot,
            held: self.buffered@.map_values(|d: Decision| d.payload@),
        }
    }
}

impl WatchBuffer {
    /// Every decision is held under its slot.
    pub open spec fn wf(&self) -> bool {
        forall|slot: u64| #[trigger]
            self.buffered@.contains_key(slot) ==> self.buffered@[slot].slot == slot
    }

    /// A watch from `start_index` on.
    pub fn new(start_index: u64) -> (buffer: Self)
        ensures
            buffer.wf(),
            buffer@ == (Watch { next: start_index, held: Map::empty() }),
    {
        let buffer = WatchBuffer { next_slot: start_index, buffered: HashMap::new() };
        assert(buffer@.held =~= Map::empty());
        buffer
    }

    /// Takes in a decision, and returns those that can be released with it, in
    /// the order of their slots.
    pub fn offer(&mut self, decision: Decision) -> (list: Vec<Decision>)
        requires
            old(self).wf(),
        ensures
            final(self).wf(),
            (final(self)@, decision_views(list@)) == offered(
                old(self)@,
                decision.slot,
                decision.payload@,
            ),
    {
        let mut list: Vec<Decision> = Vec::new();
        let slot: u64 = decision.slot;
        let ghost payload = decision.payload@;
        let ghost before = self@;
        assert(decision_views(list@) =~= Seq::empty());
        if slot < self.next_slot {
            return list;
        }
        if slot > self.next_slot {
            if !self.buffered.contains_key(&slot) {
                self.buffered.insert(slot, decision);
                assert(self@.held =~= before.held.insert(slot, payload));
            }
            return list;
        }
        self.next_slot = slot.saturating_add(1);
        list.push(decision);
        let ghost start = self@;
        assert(start == (Watch { next: behind(slot), ..before }));
        assert(decision_views(list@) =~= seq![(slot, payload)]);
        assert(self@.held.dom() =~= self.buffered@.dom());
        assert(decision_views(list@) + released(self@).1 =~= seq![(slot, payload)] + released(
            start,
        ).1);
        loop
            invariant
                self.wf(),
                self@.held.dom().finite(),
                released(self@).0 == released(start).0,
                decision_views(list@) + released(self@).1 == seq![(slot, payload)] + released(
                    start,
                ).1,
                old(self)@ == before,
                slot == before.next,
                start == (Watch { next: behind(slot), ..before }),
                slot == decision.slot,
                payload == decision.payload@,
            decreases self@.held.dom().len(),
        {
            let ghost was = self@;
            let ghost had = decision_views(list@);
            let next: u64 = self.next_slot;
            match self.buffered.remove(&next) {
                Some(d) => {
                    proof {
                        assert(was.held.contains_key(next));
                        assert(self@.held =~= was.held.remove(next));
                    }
                    self.next_slot = next.saturating_add(1);
                    list.push(d);
                    proof {
                        let after = Watch { next: behind(next), held: was.held.remove(next) };
                        assert(self@ =~= after);
                        assert(decision_views(list@) =~= had.push((next, d.payload@)));
                        let more = released(after).1;
                        assert(had.push((next, d.payload@)) + more =~= had + (seq![
                            (next, d.payload@),
                        ] + more));
                    }
                },
                None => {
                    proof {
                        assert(!was.held.contains_key(next));
                        assert(self@.held =~= was.held);
                        assert(self@ =~= was);
                        assert(decision_views(list@) + Seq::empty() =~= decision_views(list@));
                    }
                    return list;
                },
            }
        }
    }
}

/// A watch after a list of decisions was offered, and what it released.
pub open spec fn watched(start: u64, offers: Seq<(u64, Seq<u8>)>) -> (Watch, Seq<(u64, Seq<u8>)>)
    decreases offers.len(),
{
    if offers.len() == 0 {
        (Watch { next: start, held: Map::empty() }, Seq::empty())
    } else {
        let (watch, out) = watched(start, offers.drop_last());
        let (after, more) = offered(watch, offers.last().0, offers.last().1);
        (after, out + more)
    }
}

/// What is released follows slot by slot, and what is left does not.
proof fn lemma_released(watch: Watch)
    requires
        watch.held.dom().finite(),
        forall|slot: u64| #[trigger] watch.held.contains_key(slot) ==> slot < u64::MAX,
        watch.next < u64::MAX,
    ensures
        ({
            let (rest, out) = released(watch);
            &&& rest.next == watch.next + out.len()
            &&& !rest.held.contains_key(rest.next)
            &&& rest.held.dom().finite()
            &&& forall|i: int|
                0 <= i < out.len() ==> (#[trigger] out[i]).0 == watch.next + i
                    && watch.held.contains_key(out[i].0) && watch.held[out[i].0] == out[i].1
            &&& forall|slot: u64| #[trigger]
                rest.held.contains_key(slot) <==> watch.held.contains_key(slot) && !(watch.next
                    <= slot < rest.next)
            &&& forall|slot: u64| #[trigger]
                rest.held.contains_key(slot) ==> rest.held[slot] == watch.held[slot]
        }),
    decreases watch.held.dom().len(),
{
    if watch.held.contains_key(watch.next) {
        let inner = Watch { next: behind(watch.next), held: watch.held.remove(watch.next) };
        if inner.next < u64::MAX {
            lemma_released(inner);
        } else {
            assert(!inner.held.contains_key(u64::MAX)) by {
                if inner.held.contains_key(u64::MAX) {
                    assert(watch.held.contains_key(u64::MAX));
                }
            }
        }
        let (rest, out) = released(watch);
        let (deep, more) = released(inner);
        assert(rest == deep);
        assert forall|i: int| 0 <= i < out.len() implies (#[trigger] out[i]).0 == watch.next + i
            && watch.held.contains_key(out[i].0) && watch.held[out[i].0] == out[i].1 by {
            if i > 0 {
                assert(out[i] == more[i - 1]);
                assert(inner.held.contains_key(more[i - 1].0));
            }
        }
        assert forall|slot: u64| #[trigger]
            rest.held.contains_key(slot) <==> watch.held.contains_key(slot) && !(watch.next <= slot
                < rest.next) by {
            assert(deep.held.contains_key(slot) <==> inner.held.contains_key(slot) && !(inner.next
                <= slot < deep.next));
        }
    }
}

/// A watch releases slot by slot: whatever the order in which decisions are
/// offered, and however often, it releases the slots from where it began on, one
/// after the other, each once and each as it was offered, and stops only at a
/// slot that was not offered. The last number there is stands for no slot.
pub proof fn watch_releases_in_order(start: u64, offers: Seq<(u64, Seq<u8>)>)
    requires
        start < u64::MAX,
        forall|i: int| 0 <= i < offers.len() ==> (#[trigger] offers[i]).0 < u64::MAX,
    ensures
        ({
            let (watch, out) = watched(start, offers);
            &&& watch.next == start + out.len()
            &&& forall|i: int|
                0 <= i < out.len() ==> (#[trigger] out[i]).0 == start + i && offers.contains(out[i])
            &&& forall|i: int|
                0 <= i < offers.len() ==> (#[trigger] offers[i]).0 != watch.next
            &&& watch.held.dom().finite()
            &&& forall|slot: u64| #[trigger]
                watch.held.contains_key(slot) ==> watch.next < slot < u64::MAX && offers.contains(
                    (slot, watch.held[slot]),
                )
            &&& forall|i: int|
                0 <= i < offers.len() && (#[trigger] offers[i]).0 >= watch.next
                    ==> watch.held.contains_key(offers[i].0)
        }),
    decreases offers.len(),
{
    if offers.len() > 0 {
        let before = offers.drop_last();
        let (slot, payload) = offers.last();
        assert(offers[offers.len() - 1] == offers.last());
        assert forall|i: int| 0 <= i < before.len() implies (#[trigger] before[i]).0 < u64::MAX by {
            assert(offers[i] == before[i]);
        }
        watch_releases_in_order(start, before);
        let (watch, out) = watched(start, before);
        let (after, more) = offered(watch, slot, payload);
        let total = out + more;
        assert(watched(start, offers) == (after, total));
        assert forall|x: (u64, Seq<u8>)| before.contains(x) implies offers.contains(x) by {
            let i = choose|i: int| 0 <= i < before.len() && before[i] == x;
            assert(offers[i] == x);
        }
        if slot == watch.next {
            let open = Watch { next: behind(slot), ..watch };
            if open.next < u64::MAX {
                lemma_released(open);
            } else {
                assert(!open.held.contains_key(u64::MAX));
            }
            let (rest, tail) = released(open);
            assert(more == seq![(slot, payload)] + tail);
            assert forall|i: int| 0 <= i < total.len() implies (#[trigger] total[i]).0 == start + i
                && offers.contains(total[i]) by {
                if i < out.len() {
                    assert(total[i] == out[i]);
                } else if i > out.len() {
                    let k = i - out.len() - 1;
                    assert(total[i] == tail[k]);
                    assert(watch.held.contains_key(tail[k].0));
                }
            }
            assert forall|i: int| 0 <= i < offers.len() && (#[trigger] offers[i]).0
                >= after.next implies after.held.contains_key(offers[i].0) by {
                if i < before.len() {
                    assert(before[i] == offers[i]);
                    assert(watch.held.contains_key(before[i].0));
                }
            }
            assert forall|i: int| 0 <= i < offers.len() implies (#[trigger] offers[i]).0
                != after.next by {
                if i < before.len() && offers[i].0 == after.next {
                    assert(before[i] == offers[i]);
                    assert(after.held.contains_key(after.next));
                }
            }
        } else {
            assert forall|i: int| 0 <= i < total.len() implies (#[trigger] total[i]).0 == start + i
                && offers.contains(total[i]) by {
                assert(total[i] == out[i]);
            }
            assert forall|i: int| 0 <= i < offers.len() implies (#[trigger] offers[i]).0
                != after.next by {
                if i < before.len() {
                    assert(before[i] == offers[i]);
                }
            }
            assert forall|i: int| 0 <= i < offers.len() && (#[trigger] offers[i]).0
                >= after.next implies after.held.contains_key(offers[i].0) by {
                if i < before.len() {
                    assert(before[i] == offers[i]);
                }
            }
            assert forall|x: u64| #[trigger] after.held.contains_key(x) implies after.next < x
                < u64::MAX && offers.contains((x, after.held[x])) by {
                if x == slot && !watch.held.contains_key(slot) {
                    assert(offers[offers.len() - 1] == (x, after.held[x]));
                } else {
                    assert(watch.held.contains_key(x));
                }
            }
        }
    }
}

/// The first offer of a slot counts: what a watch releases or holds for a slot is
/// what was offered for it first, whatever is offered for it later.
pub proof fn the_first_offer_counts(start: u64, offers: Seq<(u64, Seq<u8>)>, first: int)
    requires
        start < u64::MAX,
        forall|i: int| 0 <= i < offers.len() ==> (#[trigger] offers[i]).0 < u64::MAX,
        0 <= first < offers.len(),
        offers[first].0 >= start,
        forall|i: int| 0 <= i < first ==> (#[trigger] offers[i]).0 != offers[first].0,
    ensures
        ({
            let (watch, out) = watched(start, offers);
            let slot = offers[first].0;
            &&& slot < watch.next ==> out[slot - start] == offers[first]
            &&& slot > watch.next ==> watch.held[slot] == offers[first].1
        }),
    decreases offers.len(),
{
    let before = offers.drop_last();
    let last = offers.last();
    let slot = offers[first].0;
    assert forall|i: int| 0 <= i < before.len() implies (#[trigger] before[i]).0 < u64::MAX by {
        assert(offers[i] == before[i]);
    }
    watch_releases_in_order(start, before);
    watch_releases_in_order(start, offers);
    let (watch, out) = watched(start, before);
    let (after, more) = offered(watch, last.0, last.1);
    let total = out + more;
    assert(watched(start, offers) == (after, total));
    if first < before.len() {
        assert(before[first] == offers[first]);
        assert forall|i: int| 0 <= i < first implies (#[trigger] before[i]).0 != slot by {
            assert(before[i] == offers[i]);
        }
        the_first_offer_counts(start, before, first);
        if slot < watch.next {
            assert(total[slot - start] == out[slot - start]);
        } else {
            assert(before[first].0 != watch.next);
            assert(watch.held.contains_key(slot));
            if last.0 == watch.next {
                let open = Watch { next: behind(last.0), ..watch };
                if open.next < u64::MAX {
                    lemma_released(open);
                } else {
                    assert(!open.held.contains_key(u64::MAX));
                }
                let (rest, tail) = released(open);
                assert(more == seq![(last.0, last.1)] + tail);
                if slot < after.next {
                    let k = slot - start;
                    assert(total[k].0 == slot);
                    assert(total[k] == tail[k - out.len() - 1]);
                }
            }
        }
    } else {
        assert(offers[first] == last);
        assert(slot >= watch.next) by {
            if slot < watch.next {
                assert(out[slot - start].0 == slot);
                let i = choose|i: int| 0 <= i < before.len() && before[i] == out[slot - start];
                assert(offers[i].0 == slot);
            }
        }
        if slot == watch.next {
            assert(total[slot - start] == more[0]);
        } else {
            if watch.held.contains_key(slot) {
                let i = choose|i: int|
                    0 <= i < before.len() && before[i] == (slot, watch.held[slot]);
                assert(offers[i].0 == slot);
            }
        }
    }
}

/// The page size of a request.
pub open spec fn page_size(limit: Option<u32>) -> int {
    match limit {
        Some(n) => if n == 0 {
            DEFAULT_GET_LIMIT as int
        } else {
            n as int
        },
        None => DEFAULT_GET_LIMIT as int,
    }
}

/// A request gets the page size it asks for, whatever that is; one that asks for
/// nothing gets as much as one that asks for zero, and that is something.
pub proof fn requests_get_the_size_they_ask_for(limit: u32)
    ensures
        limit > 0 ==> page_size(Some(limit)) == limit,
        page_size(Some(0)) == page_size(None),
        page_size(None) > 0,
{
}

/// The page size of a request: what it asks for, or the default where it asks
/// for nothing or for zero.
pub fn page_limit(limit: Option<u32>) -> (size: usize)
    ensures
        size == page_size(limit),
        size == (match limit {
            Some(n) => if n == 0 {
                DEFAULT_GET_LIMIT as int
            } else {
                n as int
            },
            None => DEFAULT_GET_LIMIT as int,
        }),
{
    match limit {
        Some(n) => if n == 0 {
            DEFAULT_GET_LIMIT
        } else {
            n as usize
        },
        None => DEFAULT_GET_LIMIT,
    }
}

/// Why a proposal was not decided.
#[derive(Clone, Copy, Debug, PartialEq, Eq, Structural)]
pub enum ProposeFailure {
    /// The queue of proposals is full.
    ChannelFull,
    /// The node has stopped.
    NotRunning,
    /// The node stopped before the proposal was decided.
    Cancelled,
    /// Another leader's proposal took its place.
    Superseded,
}

/// How a failed proposal is answered.
pub open spec fn failure_status(failure: ProposeFailure) -> (RpcCode, Seq<char>) {
    match failure {
        ProposeFailure::ChannelFull => (RpcCode::ResourceExhausted, "proposal channel full"@),
        ProposeFailure::NotRunning => (RpcCode::Unavailable, "node is not running"@),
        ProposeFailure::Cancelled => (
            RpcCode::Unavailable,
            "node was shut down before proposal was decided"@,
        ),
        ProposeFailure::Superseded => (
            RpcCode::Aborted,
            "proposal was superseded by another leader"@,
        ),
    }
}

/// How a failed proposal is answered.
pub fn propose_status(failure: ProposeFailure) -> (r: (RpcCode, &'static str))
    ensures
        (r.0, r.1@) == failure_status(failure),
{
    match failure {
        ProposeFailure::ChannelFull => (RpcCode::ResourceExhausted, "proposal channel full"),
        ProposeFailure::NotRunning => (RpcCode::Unavailable, "node is not running"),
        ProposeFailure::Cancelled => (
            RpcCode::Unavailable,
            "node was shut down before proposal was decided",
        ),
        ProposeFailure::Superseded => (
            RpcCode::Aborted,
            "proposal was superseded by another leader",
        ),
    }
}

/// What the service answers is what a client acts on: where the node has stopped, it
/// goes to another endpoint; where another leader took the slot, it proposes again;
/// where the queue is full, its caller is told; and a watch that fell behind is
/// opened again.
pub proof fn answers_are_acted_on(failure: ProposeFailure, endpoints: nat)
    requires
        endpoints >= 2,
    ensures
        retry_after(1, failure_status(failure).0, endpoints) == (match failure {
            ProposeFailure::NotRunning | ProposeFailure::Cancelled => Retry::Endpoint(1),
            ProposeFailure::Superseded => Retry::SameChannel,
            ProposeFailure::ChannelFull => Retry::Surface,
        }),
        transient(RpcCode::ResourceExhausted),
        forall|code: RpcCode| #[trigger]
            transient(code) ==> code != RpcCode::Success && code != RpcCode::Aborted,
{
}

/// The decision as the service keeps it.
pub fn to_decision(decided: Decided<Vec<u8>>) -> (decision: Decision)
    ensures
        decision@ == decided@,
{
    Decision { slot: decided.slot, payload: decided.value }
}

/// What a watcher that fell too far behind is answered: it should open its watch
/// again.
pub fn watch_lagged() -> (r: (RpcCode, &'static str))
    ensures
        r.0 == RpcCode::ResourceExhausted,
        r.1@ == LAGGED@,
{
    (RpcCode::ResourceExhausted, LAGGED)
}

/// The algorithm that a node reports.
pub open spec fn reported(algorithm: NodeAlgorithm) -> Algorithm {
    match algorithm {
        NodeAlgorithm::Paxos => Algorithm::Paxos,
        NodeAlgorithm::Raft => Algorithm::Raft,
    }
}

/// The role that a node reports.
pub open spec fn reported_role(role: Option<NodeRole>) -> Role {
    match role {
        Some(NodeRole::Follower) => Role::Follower,
        Some(NodeRole::Candidate) => Role::Candidate,
        Some(NodeRole::Leader) => Role::Leader,
        None => Role::NotApplicable,
    }
}

/// The algorithm that a node reports.
pub fn reported_algorithm(algorithm: NodeAlgorithm) -> (r: Algorithm)
    ensures
        r == reported(algorithm),
{
    match algorithm {
        NodeAlgorithm::Paxos => Algorithm::Paxos,
        NodeAlgorithm::Raft => Algorithm::Raft,
    }
}

/// The identity of a node as its status gives it: `name@incarnation`.
pub open spec fn status_id(id: NodeName) -> Seq<char> {
    id.name + "@"@ + decimal(id.incarnation as nat)
}

/// The identity of a node as its status gives it.
fn status_id_of(id: &NodeId) -> (text: String)
    ensures
        text@ == status_id(id@),
{
    let incarnation: String = u64_to_string(id.incarnation());
    id.name().to_owned().concat("@").concat(incarnation.as_str())
}

/// Whether a response tells the state of a node. The algorithm is the one that
/// the node reports, whatever it was set up with; an unknown leader is empty.
pub open spec fn tells(response: StatusResponse, state: NodeState) -> bool {
    &&& response.node_id@ == status_id(state.node_id@)
    &&& response.algorithm@ == reported(state.algorithm).name()
    &&& response.role@ == reported_role(state.role).name()
    &&& response.term == state.term
    &&& response.leader_id@ == (match state.leader {
        Some(leader) => leader@.text(),
        None => ""@,
    })
    &&& response.log_len == state.log_len
    &&& response.commit_index == state.commit_index
    &&& response.last_applied == state.last_applied
}

/// The state of a node as it is answered. The algorithm it was set up with is
/// not told: the node's own report counts.
pub fn project_status(state: NodeState, _configured: Algorithm) -> (response: StatusResponse)
    ensures
        tells(response, state),
{
    let role: Role = match state.role {
        Some(NodeRole::Follower) => Role::Follower,
        Some(NodeRole::Candidate) => Role::Candidate,
        Some(NodeRole::Leader) => Role::Leader,
        None => Role::NotApplicable,
    };
    let leader_id: String = match &state.leader {
        Some(leader) => leader.display(),
        None => "".to_owned(),
    };
    StatusResponse {
        node_id: status_id_of(&state.node_id),
        algorithm: reported_algorithm(state.algorithm).as_str().to_owned(),
        role: role.as_str().to_owned(),
        term: state.term,
        leader_id,
        log_len: state.log_len,
        commit_index: state.commit_index,
        last_applied: state.last_applied,
    }
}

/// A client reads what the service answers: the response to every state can be
/// read, and what is read is that state.
pub proof fn status_is_read_back(state: NodeState, response: StatusResponse, status: ClusterStatus)
    requires
        tells(response, state),
    ensures
        understood(response),
        response.term == state.term && response.log_len == state.log_len,
        response.commit_index == state.commit_index,
        response.last_applied == state.last_applied,
        reads_as(response, status) ==> {
            &&& status.node_id@ == status_id(state.node_id@)
            &&& status.algorithm == reported(state.algorithm)
            &&& status.role == reported_role(state.role)
            &&& status.term == state.term
            &&& opt(status.leader_id) == (match state.leader {
                Some(leader) => Some(leader@.text()),
                None => None,
            })
            &&& status.log_len == state.log_len
            &&& status.commit_index == state.commit_index
            &&& status.last_applied == state.last_applied
        },
{
    names_are_read_back(reported(state.algorithm), reported_role(state.role));
    reveal_strlit("/");
    reveal_strlit("");
    if let Some(leader) = state.leader {
        assert(leader@.text().len() >= 1);
        assert(""@.len() == 0);
    }
}

} // verus!
