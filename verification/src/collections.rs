//! Sets and maps keyed by node identity.
use crate::config::{NodeId, NodeName};
use crate::raft_model::{is_quorum_index, quorum_index, replicated_on};
use std::collections::HashMap;
use vstd::prelude::*;

verus! {

broadcast use vstd::std_specs::hash::group_hash_axioms;

/// The slots of a table, each once, in any order.
pub fn slots_of<T>(map: &HashMap<u64, T>) -> (slots: Vec<u64>)
    ensures
        slots@.no_duplicates(),
        slots@.to_set() == map@.dom(),
{
    let iter = map.keys();
    let ghost all = vstd::std_specs::iter::IteratorSpec::remaining(&iter).unref();
    assert(all.no_duplicates()) by {
        let refs = vstd::std_specs::iter::IteratorSpec::remaining(&iter);
        assert(refs.no_duplicates());
        assert forall|i: int, j: int| 0 <= i < j < all.len() implies all[i] != all[j] by {
            assert(refs[i] != refs[j]);
        }
    }
    let mut slots: Vec<u64> = Vec::new();
    for slot in keys: iter
        invariant
            all == keys.seq().unref(),
            slots@ == all.take(keys.index() as int),
    {
        assert(all[keys.index()] == *slot);
        assert(all.take(keys.index() + 1) =~= all.take(keys.index() as int).push(*slot));
        slots.push(*slot);
    }
    assert(slots@ =~= all);
    slots
}

/// A set of node identities.
pub struct NodeSet {
    members: Vec<NodeId>,
}

impl View for NodeSet {
    type V = Set<NodeName>;

    closed spec fn view(&self) -> Set<NodeName> {
        self.members@.map_values(|m: NodeId| m@).to_set()
    }
}

impl NodeSet {
    /// No identity is held twice.
    pub closed spec fn wf(&self) -> bool {
        self.members@.map_values(|m: NodeId| m@).no_duplicates()
    }

    /// Creates an empty set.
    pub fn new() -> (set: Self)
        ensures
            set.wf(),
            set@ == Set::<NodeName>::empty(),
    {
        let set = NodeSet { members: Vec::new() };
        assert(set@ =~= Set::<NodeName>::empty());
        set
    }

    /// The number of identities in the set.
    pub fn len(&self) -> (len: usize)
        requires
            self.wf(),
        ensures
            len == self@.len(),
            self@.finite(),
    {
        proof {
            let names = self.members@.map_values(|m: NodeId| m@);
            names.unique_seq_to_set();
            vstd::seq_lib::seq_to_set_is_finite(names);
        }
        self.members.len()
    }

    /// Whether the set holds no identity.
    pub fn is_empty(&self) -> (empty: bool)
        requires
            self.wf(),
        ensures
            empty == (self@ == Set::<NodeName>::empty()),
            empty == (self@.len() == 0),
    {
        let n: usize = self.len();
        proof {
            if n == 0 {
                assert(self@ =~= Set::<NodeName>::empty());
            }
        }
        n == 0
    }

    /// Whether `id` is in the set.
    pub fn contains(&self, id: &NodeId) -> (found: bool)
        ensures
            found == self@.contains(id@),
    {
        let ghost names = self.members@.map_values(|m: NodeId| m@);
        let mut i: usize = 0;
        while i < self.members.len()
            invariant
                i <= self.members.len(),
                names == self.members@.map_values(|m: NodeId| m@),
                forall|j: int| 0 <= j < i ==> names[j] != id@,
            decreases self.members.len() - i,
        {
            if self.members[i] == *id {
                assert(names[i as int] == id@);
                return true;
            }
            i += 1;
        }
        false
    }

    /// Adds `id`; returns whether it was not there before.
    pub fn insert(&mut self, id: NodeId) -> (added: bool)
        requires
            old(self).wf(),
        ensures
            final(self).wf(),
            final(self)@ == old(self)@.insert(id@),
            added == !old(self)@.contains(id@),
    {
        if self.contains(&id) {
            assert(self@ =~= old(self)@.insert(id@));
            return false;
        }
        let ghost before = self.members@.map_values(|m: NodeId| m@);
        let ghost name = id@;
        self.members.push(id);
        proof {
            let after = self.members@.map_values(|m: NodeId| m@);
            assert(after =~= before.push(name));
            assert(after.to_set() =~= before.to_set().insert(name)) by {
                assert forall|n: NodeName| before.to_set().insert(name).contains(n) implies
                    after.to_set().contains(n) by {
                    if n == name {
                        assert(after[before.len() as int] == n);
                    } else {
                        let k = choose|k: int| 0 <= k < before.len() && before[k] == n;
                        assert(after[k] == n);
                    }
                }
            }
            assert forall|a: int, b: int| 0 <= a < b < after.len() implies after[a] != after[b] by {
                if b == before.len() {
                    assert(before.to_set().contains(before[a]));
                }
            }
        }
        true
    }

    /// Whether the set holds at least `quorum` identities once `id` is in it.
    pub fn reaches_with(&self, id: &NodeId, quorum: usize) -> (r: bool)
        requires
            self.wf(),
        ensures
            r == (self@.insert(id@).len() >= quorum),
    {
        let len: usize = self.len();
        if self.contains(id) {
            assert(self@.insert(id@) =~= self@);
            len >= quorum
        } else {
            quorum == 0 || len >= quorum - 1
        }
    }

    /// Removes every identity.
    pub fn clear(&mut self)
        ensures
            final(self).wf(),
            final(self)@ == Set::<NodeName>::empty(),
    {
        self.members.clear();
        assert(self@ =~= Set::<NodeName>::empty());
    }
}

/// A map from node identities to copyable values.
pub struct NodeMap<T> {
    keys: Vec<NodeId>,
    vals: Vec<T>,
}

/// The map that two parallel sequences describe.
pub open spec fn zipped<T>(keys: Seq<NodeName>, vals: Seq<T>) -> Map<NodeName, T> {
    Map::new(|n: NodeName| keys.contains(n), |n: NodeName| vals[keys.index_of(n)])
}

impl<T> View for NodeMap<T> {
    type V = Map<NodeName, T>;

    closed spec fn view(&self) -> Map<NodeName, T> {
        zipped(self.names(), self.vals@)
    }
}

impl<T> NodeMap<T> {
    closed spec fn names(&self) -> Seq<NodeName> {
        self.keys@.map_values(|k: NodeId| k@)
    }

    /// No identity is held twice, and each has one value.
    pub closed spec fn wf(&self) -> bool {
        &&& self.names().no_duplicates()
        &&& self.keys.len() == self.vals.len()
    }

    /// Creates an empty map.
    pub fn new() -> (map: Self)
        ensures
            map.wf(),
            map@ == Map::<NodeName, T>::empty(),
    {
        let map = NodeMap { keys: Vec::new(), vals: Vec::new() };
        assert(map@ =~= Map::<NodeName, T>::empty());
        map
    }

    fn position(&self, id: &NodeId) -> (at: Option<usize>)
        requires
            self.wf(),
        ensures
            at is Some == self@.contains_key(id@),
            at matches Some(i) ==> i < self.keys.len() && self.names()[i as int] == id@
                && self@[id@] == self.vals[i as int],
    {
        let mut i: usize = 0;
        while i < self.keys.len()
            invariant
                i <= self.keys.len(),
                self.wf(),
                forall|j: int| 0 <= j < i ==> self.names()[j] != id@,
            decreases self.keys.len() - i,
        {
            if self.keys[i] == *id {
                assert(self.names()[i as int] == id@);
                assert(self.names().contains(id@));
                return Some(i);
            }
            i += 1;
        }
        assert(!self.names().contains(id@));
        None
    }

    /// The value held for `id`.
    pub fn get(&self, id: &NodeId) -> (value: Option<&T>)
        requires
            self.wf(),
        ensures
            value is Some == self@.contains_key(id@),
            value matches Some(v) ==> *v == self@[id@],
    {
        match self.position(id) {
            Some(i) => Some(&self.vals[i]),
            None => None,
        }
    }

    /// Sets the value held for `id`.
    pub fn insert(&mut self, id: NodeId, value: T)
        requires
            old(self).wf(),
        ensures
            final(self).wf(),
            final(self)@ == old(self)@.insert(id@, value),
    {
        let ghost before = self.names();
        match self.position(&id) {
            Some(i) => {
                self.vals.set(i, value);
                proof {
                    assert(self.names() == before);
                    assert forall|n: NodeName| before.contains(n) implies self@[n]
                        == old(self)@.insert(id@, value)[n] by {
                        let k = before.index_of(n);
                        assert(0 <= k < before.len() && before[k] == n);
                        if k == i {
                            assert(n == id@);
                        }
                    }
                    assert(before.contains(id@));
                    assert(self@ =~= old(self)@.insert(id@, value));
                }
            },
            None => {
                let ghost name = id@;
                self.keys.push(id);
                self.vals.push(value);
                proof {
                    let after = self.names();
                    assert(after =~= before.push(name));
                    assert(!before.contains(name));
                    assert forall|a: int, b: int| 0 <= a < b < after.len() implies after[a]
                        != after[b] by {
                        if b == before.len() {
                            assert(before.contains(before[a]));
                        }
                    }
                    assert forall|n: NodeName| #[trigger] after.contains(n) <==> before.contains(n)
                        || n == name by {
                        if before.contains(n) {
                            let k = before.index_of(n);
                            assert(after[k] == n);
                        }
                        if n == name {
                            assert(after[before.len() as int] == n);
                        }
                    }
                    assert forall|n: NodeName| after.contains(n) implies self@[n] == old(
                        self,
                    )@.insert(name, value)[n] by {
                        let k = after.index_of(n);
                        assert(0 <= k < after.len() && after[k] == n);
                        if n != name {
                            let j = before.index_of(n);
                            assert(0 <= j < before.len() && before[j] == n);
                            assert(after[j] == n);
                            assert(j == k);
                        } else {
                            assert(after[before.len() as int] == n);
                        }
                    }
                    assert(self@ =~= old(self)@.insert(name, value));
                }
            },
        }
    }

    /// Removes every identity.
    pub fn clear(&mut self)
        ensures
            final(self).wf(),
            final(self)@ == Map::<NodeName, T>::empty(),
    {
        self.keys.clear();
        self.vals.clear();
        assert(self@ =~= Map::<NodeName, T>::empty());
    }

    /// The number of identities in the map.
    pub fn len(&self) -> (len: usize)
        requires
            self.wf(),
        ensures
            len == self@.dom().len(),
    {
        proof {
            self.names().unique_seq_to_set();
            assert(self@.dom() =~= self.names().to_set());
        }
        self.keys.len()
    }
}

/// The values, from position `i` on, that are at least `index`.
spec fn tail_count(vals: Seq<Option<u64>>, index: u64, i: int) -> nat
    decreases vals.len() - i,
{
    if i >= vals.len() || i < 0 {
        0
    } else {
        tail_count(vals, index, i + 1) + if vals[i] is Some && vals[i]->0 >= index {
            1nat
        } else {
            0nat
        }
    }
}

impl NodeMap<Option<u64>> {
    spec fn tail_holders(&self, index: u64, i: int) -> Set<NodeName> {
        Set::new(
            |n: NodeName|
                exists|k: int|
                    i <= k < self.names().len() && self.names()[k] == n && self.vals[k] is Some
                        && self.vals[k]->0 >= index,
        )
    }

    proof fn lemma_tail_holders(&self, index: u64, i: int)
        requires
            self.wf(),
            0 <= i <= self.names().len(),
        ensures
            self.tail_holders(index, i).finite(),
            self.tail_holders(index, i).len() == tail_count(self.vals@, index, i),
        decreases self.names().len() - i,
    {
        if i == self.names().len() {
            assert(self.tail_holders(index, i) =~= Set::empty());
        } else {
            self.lemma_tail_holders(index, i + 1);
            let rest = self.tail_holders(index, i + 1);
            let n = self.names()[i];
            if self.vals[i] is Some && self.vals[i]->0 >= index {
                assert(!rest.contains(n));
                assert(self.tail_holders(index, i) =~= rest.insert(n)) by {
                    assert forall|m: NodeName| rest.insert(n).contains(m) implies self.tail_holders(
                        index,
                        i,
                    ).contains(m) by {
                        if m == n {
                            assert(self.names()[i] == m);
                        }
                    }
                }
            } else {
                assert(self.tail_holders(index, i) =~= rest);
            }
        }
    }

    proof fn lemma_holders(&self, index: u64)
        requires
            self.wf(),
        ensures
            replicated_on(self@, index).len() == tail_count(self.vals@, index, 0),
            replicated_on(self@, index).finite(),
    {
        self.lemma_tail_holders(index, 0);
        let set = replicated_on(self@, index);
        let all = self.tail_holders(index, 0);
        assert forall|n: NodeName| set.contains(n) implies all.contains(n) by {
            let k = self.names().index_of(n);
            assert(self.names()[k] == n);
        }
        assert forall|n: NodeName| all.contains(n) implies set.contains(n) by {
            let k = choose|k: int|
                0 <= k < self.names().len() && self.names()[k] == n && self.vals[k] is Some
                    && self.vals[k]->0 >= index;
            assert(self.names().contains(n));
            assert(self.names().index_of(n) == k);
        }
        assert(set =~= all);
    }

    /// The number of nodes whose value is at least `index`.
    fn holders(&self, index: u64) -> (count: usize)
        requires
            self.wf(),
        ensures
            count == replicated_on(self@, index).len(),
    {
        let mut count: usize = 0;
        let mut i: usize = self.vals.len();
        while i > 0
            invariant
                i <= self.vals.len(),
                count == tail_count(self.vals@, index, i as int),
                count <= self.vals.len() - i,
            decreases i,
        {
            i -= 1;
            if let Some(held) = self.vals[i] {
                if held >= index {
                    count += 1;
                }
            }
        }
        proof {
            self.lemma_holders(index);
        }
        count
    }

    /// The highest index that at least `quorum` nodes hold.
    pub fn highest_replicated(&self, quorum: usize) -> (index: Option<u64>)
        requires
            self.wf(),
            quorum > 0,
        ensures
            index == quorum_index(self@, quorum as nat),
    {
        let mut best: Option<u64> = None;
        let mut i: usize = 0;
        while i < self.vals.len()
            invariant
                i <= self.vals.len(),
                self.wf(),
                quorum > 0,
                best matches Some(b) ==> replicated_on(self@, b).len() >= quorum,
                forall|j: int|
                    0 <= j < i && (#[trigger] self.vals[j]) is Some && replicated_on(
                        self@,
                        self.vals[j]->0,
                    ).len() >= quorum ==> best is Some && best->0 >= self.vals[j]->0,
            decreases self.vals.len() - i,
        {
            if let Some(held) = self.vals[i] {
                let higher: bool = match best {
                    Some(b) => held > b,
                    None => true,
                };
                if higher && self.holders(held) >= quorum {
                    best = Some(held);
                }
            }
            i += 1;
        }
        proof {
            assert forall|h: u64| #[trigger] replicated_on(self@, h).len() >= quorum implies best
                is Some && best->0 >= h by {
                self.lemma_attained(h, quorum as nat);
                let j = choose|j: int|
                    0 <= j < self.vals.len() && (#[trigger] self.vals[j]) is Some && self.vals[j]->0
                        >= h && replicated_on(self@, self.vals[j]->0).len() >= quorum;
            }
            match best {
                Some(b) => {
                    assert(is_quorum_index(self@, quorum as nat, b));
                    let c = quorum_index(self@, quorum as nat)->0;
                    assert(is_quorum_index(self@, quorum as nat, c));
                    assert(c == b);
                },
                None => {},
            }
        }
        best
    }

    /// An index that enough nodes hold is reached by a value that enough nodes hold.
    proof fn lemma_attained(&self, h: u64, quorum: nat)
        requires
            self.wf(),
            quorum > 0,
            replicated_on(self@, h).len() >= quorum,
        ensures
            exists|j: int|
                0 <= j < self.vals.len() && (#[trigger] self.vals[j]) is Some && self.vals[j]->0 >= h
                    && replicated_on(self@, self.vals[j]->0).len() >= quorum,
    {
        let set = replicated_on(self@, h);
        self.lemma_holders(h);
        assert(set.len() > 0);
        // The lowest value among the holders is held by all of them.
        let lowest = self.lemma_lowest(h, 0);
        let n = set.choose();
        assert(set.contains(n));
        let k = self.names().index_of(n);
        assert(self.names()[k] == n);
        assert(self.vals[k] is Some && self.vals[k]->0 >= h);
        let low = self.vals[lowest]->0;
        assert forall|m: NodeName| set.contains(m) implies replicated_on(self@, low).contains(m) by {
            let q = self.names().index_of(m);
            assert(self.names()[q] == m);
            assert(self.vals[q] is Some && self.vals[q]->0 >= h);
        }
        self.lemma_holders(low);
        vstd::set_lib::lemma_len_subset(set, replicated_on(self@, low));
    }

    /// The position of the lowest value, from `i` on, that is at least `h`.
    proof fn lemma_lowest(&self, h: u64, i: int) -> (at: int)
        requires
            0 <= i <= self.vals.len(),
        ensures
            (exists|k: int| i <= k < self.vals.len() && self.vals[k] is Some && self.vals[k]->0 >= h)
                ==> i <= at < self.vals.len() && self.vals[at] is Some && self.vals[at]->0 >= h,
            forall|k: int|
                i <= k < self.vals.len() && (#[trigger] self.vals[k]) is Some && self.vals[k]->0 >= h
                    ==> self.vals[at] is Some && self.vals[at]->0 <= self.vals[k]->0,
        decreases self.vals.len() - i,
    {
        if i == self.vals.len() {
            0
        } else {
            let rest = self.lemma_lowest(h, i + 1);
            let here = self.vals[i] is Some && self.vals[i]->0 >= h;
            if !here {
                rest
            } else if i + 1 <= rest < self.vals.len() && self.vals[rest] is Some
                && self.vals[rest]->0 >= h && self.vals[rest]->0 < self.vals[i]->0 {
                rest
            } else {
                i
            }
        }
    }
}

} // verus!
