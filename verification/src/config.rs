//! Node identities, their order, and the timing configuration.
use crate::text::decimal;
use crate::text::u64_to_string;
use crate::value::opt;
use std::cmp::Ordering;
use vstd::prelude::*;
use vstd::string::*;
use vstd::utf8::encode_utf8;

verus! {

/// The identity of a node as a mathematical value.
pub struct NodeName {
    pub name: Seq<char>,
    pub incarnation: u64,
}

/// Unique identity of a node in the cluster.
///
/// A `NodeId` consists of a human-readable name (e.g. `"node-1"`) and a numeric
/// incarnation. The incarnation distinguishes restarts of the same named node so
/// that stale messages from a previous process are not confused with the current
/// one. Identities are ordered by name, byte by byte, then by incarnation; the
/// order breaks ties between proposal numbers.
#[derive(Debug, Hash, Eq, Ord)]
pub struct NodeId {
    name: String,
    incarnation: u64,
}

impl View for NodeId {
    type V = NodeName;

    closed spec fn view(&self) -> NodeName {
        NodeName { name: self.name@, incarnation: self.incarnation }
    }
}

/// Whether `a` comes before `b` when the bytes from position `i` on are
/// compared one after the other and a proper prefix comes first.
pub open spec fn bytes_less(a: Seq<u8>, b: Seq<u8>, i: int) -> bool
    decreases b.len() - i,
{
    if i >= b.len() {
        false
    } else if i >= a.len() {
        true
    } else if a[i] != b[i] {
        a[i] < b[i]
    } else {
        bytes_less(a, b, i + 1)
    }
}

impl NodeName {
    /// The identity as text: the name, a slash and the incarnation.
    pub open spec fn text(self) -> Seq<char> {
        self.name + "/"@ + decimal(self.incarnation as nat)
    }

    /// Whether this identity comes before `other`.
    pub open spec fn less(self, other: NodeName) -> bool {
        if self.name != other.name {
            bytes_less(encode_utf8(self.name), encode_utf8(other.name), 0)
        } else {
            self.incarnation < other.incarnation
        }
    }
}

impl NodeId {
    /// Creates a new `NodeId` with the given name and incarnation number.
    pub fn new(name: &str, incarnation: u64) -> (id: Self)
        ensures
            id@ == (NodeName { name: name@, incarnation: incarnation }),
    {
        NodeId { name: name.to_owned(), incarnation }
    }

    /// Returns the human-readable name portion of this node identity.
    pub fn name(&self) -> (name: &str)
        ensures
            name@ == self@.name,
    {
        self.name.as_str()
    }

    /// Returns the incarnation number, typically a UNIX timestamp set at node startup.
    pub fn incarnation(&self) -> (incarnation: u64)
        ensures
            incarnation == self@.incarnation,
    {
        self.incarnation
    }

    /// Formats the identity as `name/incarnation`, e.g. `"node-1/1710412800"`.
    pub fn display(&self) -> (text: String)
        ensures
            text@ == self@.text(),
    {
        let incarnation: String = u64_to_string(self.incarnation);
        self.name.clone().concat("/").concat(incarnation.as_str())
    }

    /// Whether this identity comes before `other`.
    pub fn less(&self, other: &NodeId) -> (r: bool)
        ensures
            r == self@.less(other@),
    {
        if self.name == other.name {
            self.incarnation < other.incarnation
        } else {
            str_less(self.name.as_str(), other.name.as_str())
        }
    }
}

/// Returns a copy of an optional identity.
pub fn copy_id(id: &Option<NodeId>) -> (copy: Option<NodeId>)
    ensures
        opt(copy) == opt(*id),
{
    match id {
        Some(id) => Some(id.clone()),
        None => None,
    }
}

/// Whether the bytes of `a` come before the bytes of `b`.
fn str_less(a: &str, b: &str) -> (r: bool)
    ensures
        r == bytes_less(encode_utf8(a@), encode_utf8(b@), 0),
{
    let x: &[u8] = a.as_bytes();
    let y: &[u8] = b.as_bytes();
    let mut i: usize = 0;
    while i < x.len() && i < y.len() && x[i] == y[i]
        invariant
            i <= x@.len(),
            i <= y@.len(),
            bytes_less(x@, y@, 0) == bytes_less(x@, y@, i as int),
        decreases x@.len() - i,
    {
        i += 1;
    }
    if i >= y.len() {
        false
    } else if i >= x.len() {
        true
    } else {
        x[i] < y[i]
    }
}

impl Clone for NodeId {
    fn clone(&self) -> (copy: Self)
        ensures
            copy@ == self@,
    {
        NodeId { name: self.name.clone(), incarnation: self.incarnation }
    }
}

impl PartialEq for NodeId {
    fn eq(&self, other: &NodeId) -> (r: bool) {
        self.name == other.name && self.incarnation == other.incarnation
    }
}

impl vstd::std_specs::cmp::PartialEqSpecImpl for NodeId {
    open spec fn obeys_eq_spec() -> bool {
        true
    }

    open spec fn eq_spec(&self, other: &NodeId) -> bool {
        self@ == other@
    }
}

impl PartialOrd for NodeId {
    fn partial_cmp(&self, other: &NodeId) -> (r: Option<Ordering>) {
        if self.less(other) {
            Some(Ordering::Less)
        } else if *self == *other {
            Some(Ordering::Equal)
        } else {
            Some(Ordering::Greater)
        }
    }
}

impl vstd::std_specs::cmp::PartialOrdSpecImpl for NodeId {
    open spec fn obeys_partial_cmp_spec() -> bool {
        true
    }

    open spec fn partial_cmp_spec(&self, other: &NodeId) -> Option<Ordering> {
        if self@.less(other@) {
            Some(Ordering::Less)
        } else if self@ == other@ {
            Some(Ordering::Equal)
        } else {
            Some(Ordering::Greater)
        }
    }
}

/// A remote peer's identity paired with a sender for delivering messages to it.
pub struct PeerInfo<S> {
    /// The peer's unique identity.
    pub id: NodeId,
    /// A transport sender connected to this peer.
    pub sender: S,
}

/// Timing of the Raft state machine, in milliseconds.
#[derive(Clone, Copy, Debug)]
pub struct RaftConfig {
    /// Shortest time a follower waits for its leader before it stands for election.
    pub election_timeout_min: u64,
    /// Longest time a follower waits for its leader before it stands for election.
    pub election_timeout_max: u64,
    /// Time between two heartbeats of a leader.
    pub heartbeat_interval: u64,
}

impl Default for RaftConfig {
    fn default() -> (config: Self)
        ensures
            config.election_timeout_min == 150,
            config.election_timeout_max == 300,
            config.heartbeat_interval == 50,
    {
        RaftConfig { election_timeout_min: 150, election_timeout_max: 300, heartbeat_interval: 50 }
    }
}

proof fn bytes_less_irreflexive(a: Seq<u8>, i: int)
    ensures
        !bytes_less(a, a, i),
    decreases a.len() - i,
{
    if 0 <= i < a.len() || i < 0 {
        bytes_less_irreflexive(a, i + 1);
    }
}

proof fn bytes_less_transitive(a: Seq<u8>, b: Seq<u8>, c: Seq<u8>, i: int)
    requires
        bytes_less(a, b, i),
        bytes_less(b, c, i),
        0 <= i,
    ensures
        bytes_less(a, c, i),
    decreases c.len() - i,
{
    if i < c.len() && i < a.len() && a[i] == b[i] && b[i] == c[i] {
        bytes_less_transitive(a, b, c, i + 1);
    }
}

proof fn bytes_less_total(a: Seq<u8>, b: Seq<u8>, i: int)
    requires
        0 <= i,
        i <= a.len(),
        i <= b.len(),
        a.take(i) == b.take(i),
    ensures
        a == b || bytes_less(a, b, i) || bytes_less(b, a, i),
    decreases b.len() - i,
{
    if i < a.len() && i < b.len() {
        if a[i] == b[i] {
            assert(a.take(i + 1) =~= a.take(i).push(a[i]));
            assert(b.take(i + 1) =~= b.take(i).push(b[i]));
            bytes_less_total(a, b, i + 1);
        }
    } else if i == a.len() && i == b.len() {
        assert(a.take(i) =~= a);
        assert(b.take(i) =~= b);
    }
}

/// Names with equal bytes are equal.
proof fn names_injective(a: Seq<char>, b: Seq<char>)
    requires
        encode_utf8(a) == encode_utf8(b),
    ensures
        a == b,
{
    vstd::utf8::encode_utf8_decode_utf8(a);
    vstd::utf8::encode_utf8_decode_utf8(b);
}

/// Whether two lists of bytes agree before a position, and the first is the smaller
/// one there, or ends there.
pub open spec fn parts_at(a: Seq<u8>, b: Seq<u8>, k: int) -> bool {
    &&& 0 <= k <= a.len() && k < b.len()
    &&& forall|i: int| 0 <= i < k ==> a[i] == b[i]
    &&& k == a.len() || a[k] < b[k]
}

proof fn lemma_bytes_part(a: Seq<u8>, b: Seq<u8>, i: int) -> (k: int)
    requires
        0 <= i <= a.len(),
        i <= b.len(),
        forall|j: int| 0 <= j < i ==> a[j] == b[j],
    ensures
        bytes_less(a, b, i) ==> parts_at(a, b, k),
    decreases b.len() - i,
{
    if i < a.len() && i < b.len() && a[i] == b[i] {
        lemma_bytes_part(a, b, i + 1)
    } else {
        i
    }
}

proof fn lemma_parts_less(a: Seq<u8>, b: Seq<u8>, k: int, i: int)
    requires
        parts_at(a, b, k),
        0 <= i <= k,
    ensures
        bytes_less(a, b, i),
    decreases k - i,
{
    if i < k {
        lemma_parts_less(a, b, k, i + 1);
    }
}

/// Identities are ordered by the bytes of their names, the first difference
/// counting and a name that is the beginning of another coming first; nodes of one
/// name by their incarnation, the older one first.
pub proof fn identities_are_ordered_by_name(a: NodeName, b: NodeName)
    ensures
        a.name == b.name ==> (a.less(b) <==> a.incarnation < b.incarnation),
        a.name != b.name ==> (a.less(b) <==> exists|k: int| #[trigger]
            parts_at(encode_utf8(a.name), encode_utf8(b.name), k)),
{
    if a.name != b.name {
        let x = encode_utf8(a.name);
        let y = encode_utf8(b.name);
        let k = lemma_bytes_part(x, y, 0);
        if exists|k: int| #[trigger] parts_at(x, y, k) {
            let k = choose|k: int| #[trigger] parts_at(x, y, k);
            lemma_parts_less(x, y, k, 0);
        }
    }
}

/// The order on identities is a strict total order: no identity comes before
/// itself, and of two different identities exactly one comes before the other.
pub proof fn node_order_is_total(a: NodeName, b: NodeName)
    ensures
        !a.less(a),
        a != b ==> (a.less(b) != b.less(a)),
{
    if a.name == b.name {
    } else {
        let x = encode_utf8(a.name);
        let y = encode_utf8(b.name);
        if x == y {
            names_injective(a.name, b.name);
        }
        assert(x.take(0) =~= y.take(0));
        bytes_less_total(x, y, 0);
        if bytes_less(x, y, 0) && bytes_less(y, x, 0) {
            bytes_less_transitive(x, y, x, 0);
            bytes_less_irreflexive(x, 0);
        }
    }
}

/// The order on identities is transitive.
pub proof fn node_order_is_transitive(a: NodeName, b: NodeName, c: NodeName)
    requires
        a.less(b),
        b.less(c),
    ensures
        a.less(c),
{
    if a.name != b.name && b.name != c.name {
        let x = encode_utf8(a.name);
        let y = encode_utf8(b.name);
        bytes_less_transitive(x, y, encode_utf8(c.name), 0);
        if a.name == c.name {
            bytes_less_irreflexive(x, 0);
        }
    }
}

} // verus!
