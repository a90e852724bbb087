//! How a node is set up from the variables of its environment.
use crate::config::{NodeId, NodeName};
use crate::text::{
    beginnings_can_be_completed, begins_with, decimal, find_char, joined, joined_texts_are_parted,
    numbers_are_read_back, parse_u16, parts, position, position_is_the_first, same_text,
    split_at_char, starts_with, u16_of,
};
use crate::types::{names_are_read_back, Algorithm, Role};
use crate::value::opt;
use vstd::prelude::*;
use vstd::string::*;

verus! {

/// A peer and where it is reached.
pub type Peer = (NodeId, String);

/// Why a node cannot be set up.
#[derive(Debug)]
pub enum SettingsError {
    /// A variable is missing; what is required, in words.
    Missing(&'static str),
    /// The port is no number of 16 bits.
    BadPort,
    /// A peer has no `=` between its name and where it is reached.
    BadPeer { entry: String, form: &'static str },
    /// The transport is neither `tcp` nor `uds`.
    BadTransport(String),
    /// The algorithm is neither `paxos` nor `raft`.
    BadAlgorithm(String),
    /// The storage is neither `memory` nor `duckdb`.
    BadStorage(String),
}

impl SettingsError {
    pub open spec fn text(self) -> Seq<char> {
        match self {
            SettingsError::Missing(what) => what@,
            SettingsError::BadPort => "GRPC_PORT must be a valid port number"@,
            SettingsError::BadPeer { entry, form } => "invalid peer format '"@ + entry@
                + "', expected '"@ + form@ + "'"@,
            SettingsError::BadTransport(other) => "TRANSPORT must be 'tcp' or 'uds', got '"@ + other@
                + "'"@,
            SettingsError::BadAlgorithm(other) => "ALGORITHM must be 'paxos' or 'raft', got '"@
                + other@ + "'"@,
            SettingsError::BadStorage(other) => "STORAGE must be 'memory' or 'duckdb', got '"@
                + other@ + "'"@,
        }
    }

    /// The error as text.
    pub fn display(&self) -> (text: String)
        ensures
            text@ == self.text(),
    {
        match self {
            SettingsError::Missing(what) => (*what).to_owned(),
            SettingsError::BadPort => "GRPC_PORT must be a valid port number".to_owned(),
            SettingsError::BadPeer { entry, form } => "invalid peer format '".to_owned().concat(
                entry.as_str(),
            ).concat("', expected '").concat(form).concat("'"),
            SettingsError::BadTransport(other) => "TRANSPORT must be 'tcp' or 'uds', got '".to_owned().concat(
                other.as_str(),
            ).concat("'"),
            SettingsError::BadAlgorithm(other) => "ALGORITHM must be 'paxos' or 'raft', got '".to_owned().concat(
                other.as_str(),
            ).concat("'"),
            SettingsError::BadStorage(other) => "STORAGE must be 'memory' or 'duckdb', got '".to_owned().concat(
                other.as_str(),
            ).concat("'"),
        }
    }
}

/// The entries of a list of peers: an empty text has none.
pub open spec fn peer_entries(peers: Seq<char>) -> Seq<Seq<char>> {
    if peers.len() == 0 {
        Seq::empty()
    } else {
        parts(peers, ',')
    }
}

/// The peer of an entry: the name before the first `=`, with incarnation 0, and
/// the address behind it.
pub open spec fn peer_of(entry: Seq<char>) -> (NodeName, Seq<char>) {
    let at = position(entry, '=') as int;
    (NodeName { name: entry.take(at), incarnation: 0 }, entry.skip(at + 1))
}

/// The position of the first entry without a `=`; the length where all have one.
pub open spec fn first_bad_entry(entries: Seq<Seq<char>>) -> nat
    decreases entries.len(),
{
    if entries.len() == 0 || !entries[0].contains('=') {
        0
    } else {
        1 + first_bad_entry(entries.drop_first())
    }
}

/// The entry that is told is the first without a `=`: every entry before it has
/// one.
pub proof fn the_first_bad_entry_is_told(entries: Seq<Seq<char>>)
    ensures
        first_bad_entry(entries) <= entries.len(),
        forall|i: int|
            0 <= i < first_bad_entry(entries) ==> (#[trigger] entries[i]).contains('='),
        first_bad_entry(entries) < entries.len() ==> !entries[first_bad_entry(
            entries,
        ) as int].contains('='),
    decreases entries.len(),
{
    if entries.len() > 0 && entries[0].contains('=') {
        let more = entries.drop_first();
        the_first_bad_entry_is_told(more);
        assert forall|i: int| 0 <= i < first_bad_entry(entries) implies (
        #[trigger] entries[i]).contains('=') by {
            if i > 0 {
                assert(entries[i] == more[i - 1]);
            }
        }
        if first_bad_entry(entries) < entries.len() {
            assert(entries[first_bad_entry(entries) as int] == more[first_bad_entry(more) as int]);
        }
    }
}

/// A peer as it is written: its name, a `=` and where it is reached.
pub open spec fn peer_written(peer: (Seq<char>, Seq<char>)) -> Seq<char> {
    peer.0 + seq!['='] + peer.1
}

/// Peers are read back: a list of peers that is written with commas between them
/// is read as these peers, in this order, whatever the addresses hold but commas.
pub proof fn peers_are_read_back(list: Seq<(Seq<char>, Seq<char>)>)
    requires
        forall|i: int|
            0 <= i < list.len() ==> !(#[trigger] list[i]).0.contains('=')
                && !list[i].0.contains(',') && !list[i].1.contains(','),
    ensures
        ({
            let text = joined(list.map_values(|p: (Seq<char>, Seq<char>)| peer_written(p)), ',');
            let entries = peer_entries(text);
            &&& first_bad_entry(entries) == entries.len()
            &&& peers_of(entries) == list.map_values(
                |p: (Seq<char>, Seq<char>)| (NodeName { name: p.0, incarnation: 0 }, p.1),
            )
        }),
{
    let texts = list.map_values(|p: (Seq<char>, Seq<char>)| peer_written(p));
    let text = joined(texts, ',');
    let entries = peer_entries(text);
    assert forall|i: int| 0 <= i < texts.len() implies !(#[trigger] texts[i]).contains(',') by {
        let p = list[i];
        if texts[i].contains(',') {
            let k = choose|k: int| 0 <= k < texts[i].len() && texts[i][k] == ',';
            if k < p.0.len() {
                assert(p.0[k] == ',');
            } else if k > p.0.len() {
                assert(p.1[k - p.0.len() - 1] == ',');
            }
        }
    }
    if list.len() > 0 {
        assert(texts[0].len() > 0);
        assert(text.len() >= texts[0].len());
        joined_texts_are_parted(texts, ',');
        assert(entries == texts);
    } else {
        assert(text =~= Seq::empty());
        assert(entries =~= texts);
    }
    assert forall|i: int| 0 <= i < list.len() implies (#[trigger] entries[i]).contains('=')
        && peer_of(entries[i]) == (NodeName { name: list[i].0, incarnation: 0 }, list[i].1) by {
        let p = list[i];
        let e = entries[i];
        let n = p.0.len() as int;
        assert(e[n] == '=');
        position_is_the_first(e, '=');
        let at = position(e, '=') as int;
        assert(at == n) by {
            if at < n {
                assert(p.0[at] == '=');
            }
        }
        assert(e.take(at) =~= p.0);
        assert(e.skip(at + 1) =~= p.1);
    }
    the_first_bad_entry_is_told(entries);
    assert(peers_of(entries) =~= list.map_values(
        |p: (Seq<char>, Seq<char>)| (NodeName { name: p.0, incarnation: 0 }, p.1),
    ));
}

/// The views of a list of peers.
pub open spec fn peer_views(peers: Seq<Peer>) -> Seq<(NodeName, Seq<char>)> {
    peers.map_values(|p: Peer| (p.0@, p.1@))
}

/// The peers of a list that were read in order.
pub open spec fn peers_of(entries: Seq<Seq<char>>) -> Seq<(NodeName, Seq<char>)> {
    entries.map_values(|e: Seq<char>| peer_of(e))
}

/// Reads one peer, if its entry has a `=`.
fn parse_peer(entry: &str) -> (peer: Option<Peer>)
    ensures
        peer is Some <==> entry@.contains('='),
        peer matches Some(p) ==> (p.0@, p.1@) == peer_of(entry@),
{
    let at: usize = find_char(entry, '=');
    let n: usize = entry.unicode_len();
    proof {
        position_is_the_first(entry@, '=');
    }
    if at >= n {
        return None;
    }
    let name: &str = entry.substring_char(0, at);
    let addr: &str = entry.substring_char(at + 1, n);
    assert(name@ =~= entry@.take(at as int));
    assert(addr@ =~= entry@.skip(at + 1));
    Some((NodeId::new(name, 0), addr.to_owned()))
}

/// Whether an outcome is that of reading a list of peers: each of them, or the
/// first entry without a `=`.
pub open spec fn peers_read(
    entries: Seq<Seq<char>>,
    form: Seq<char>,
    r: Result<Vec<Peer>, SettingsError>,
) -> bool {
    let bad = first_bad_entry(entries);
    &&& r is Ok <==> bad == entries.len()
    &&& r matches Ok(list) ==> peer_views(list@) == peers_of(entries)
    &&& r matches Err(e) ==> e is BadPeer && (e->entry)@ == entries[bad as int] && (e->form)@ == form
}

/// Reads a list of peers that are reached at an address, `name=addr` with commas
/// between them.
pub fn parse_tcp_peers(peers: &str) -> (r: Result<Vec<Peer>, SettingsError>)
    ensures
        peers_read(peer_entries(peers@), "name=addr"@, r),
{
    parse_peers(peers, "name=addr")
}

/// Reads a list of peers that are reached at a path, `name=path` with commas
/// between them.
pub fn parse_uds_peers(peers: &str) -> (r: Result<Vec<Peer>, SettingsError>)
    ensures
        peers_read(peer_entries(peers@), "name=path"@, r),
{
    parse_peers(peers, "name=path")
}

/// Reads a list of peers.
fn parse_peers(peers: &str, form: &'static str) -> (r: Result<Vec<Peer>, SettingsError>)
    ensures
        peers_read(peer_entries(peers@), form@, r),
{
    let mut list: Vec<Peer> = Vec::new();
    let ghost entries = peer_entries(peers@);
    if peers.unicode_len() == 0 {
        assert(peer_views(list@) =~= peers_of(entries));
        return Ok(list);
    }
    let texts: Vec<&str> = split_at_char(peers, ',');
    let mut i: usize = 0;
    assert(entries.skip(0) =~= entries);
    assert(peer_views(list@) =~= peers_of(entries.take(0)));
    while i < texts.len()
        invariant
            i <= texts.len(),
            texts@.map_values(|p: &str| p@) == entries,
            entries == peer_entries(peers@),
            first_bad_entry(entries) == i + first_bad_entry(entries.skip(i as int)),
            peer_views(list@) == peers_of(entries.take(i as int)),
        decreases texts.len() - i,
    {
        let entry: &str = texts[i];
        assert(entry@ == entries[i as int]);
        assert(entries.skip(i as int).drop_first() =~= entries.skip(i + 1));
        let ghost had = peer_views(list@);
        match parse_peer(entry) {
            Some(peer) => {
                let ghost view = (peer.0@, peer.1@);
                list.push(peer);
                assert(peer_views(list@) =~= had.push(view));
                assert(peers_of(entries.take(i + 1)) =~= had.push(view));
            },
            None => return Err(SettingsError::BadPeer { entry: entry.to_owned(), form }),
        }
        i += 1;
    }
    assert(entries.take(i as int) =~= entries);
    Ok(list)
}

/// The peers with another name than this one, in order.
pub open spec fn others(peers: Seq<(NodeName, Seq<char>)>, name: Seq<char>) -> Seq<
    (NodeName, Seq<char>),
>
    decreases peers.len(),
{
    if peers.len() == 0 {
        Seq::empty()
    } else if peers.last().0.name != name {
        others(peers.drop_last(), name).push(peers.last())
    } else {
        others(peers.drop_last(), name)
    }
}

/// Takes a node itself out of a list of peers.
pub fn without_self(peers: Vec<Peer>, name: &str) -> (rest: Vec<Peer>)
    ensures
        peer_views(rest@) == others(peer_views(peers@), name@),
{
    let mut rest: Vec<Peer> = Vec::new();
    let ghost all = peers@;
    let ghost views = peer_views(all);
    assert(peer_views(rest@) =~= Seq::empty());
    for peer in iter: peers
        invariant
            iter.seq() == all,
            views == peer_views(all),
            peer_views(rest@) == others(views.take(iter.index() as int), name@),
    {
        let ghost had = peer_views(rest@);
        let ghost view = (peer.0@, peer.1@);
        proof {
            let more = views.take(iter.index() + 1);
            assert(more.drop_last() =~= views.take(iter.index() as int));
            assert(more.last() == view);
        }
        if !same_text(peer.0.name(), name) {
            rest.push(peer);
            assert(peer_views(rest@) =~= had.push(view));
        }
    }
    assert(views.take(views.len() as int) =~= views);
    rest
}

/// A node keeps its peers in order, each as often as it was listed.
pub proof fn others_stay_in_order(peers: Seq<(NodeName, Seq<char>)>, name: Seq<char>)
    ensures
        others(peers, name) == peers.filter(|p: (NodeName, Seq<char>)| p.0.name != name),
    decreases peers.len(),
{
    reveal(Seq::filter);
    if peers.len() > 0 {
        others_stay_in_order(peers.drop_last(), name);
    }
}

/// A node is not its own peer: none of the others has its name, and all of them
/// were in the list.
pub proof fn others_have_other_names(peers: Seq<(NodeName, Seq<char>)>, name: Seq<char>)
    ensures
        forall|i: int|
            0 <= i < others(peers, name).len() ==> (#[trigger] others(peers, name)[i]).0.name
                != name && peers.contains(others(peers, name)[i]),
        forall|i: int|
            0 <= i < peers.len() && (#[trigger] peers[i]).0.name != name ==> others(
                peers,
                name,
            ).contains(peers[i]),
    decreases peers.len(),
{
    if peers.len() > 0 {
        let before = peers.drop_last();
        others_have_other_names(before, name);
        let rest = others(before, name);
        let all = others(peers, name);
        assert forall|i: int| 0 <= i < all.len() implies (#[trigger] all[i]).0.name != name
            && peers.contains(all[i]) by {
            if i < rest.len() {
                assert(all[i] == rest[i]);
                let k = choose|k: int| 0 <= k < before.len() && before[k] == rest[i];
                assert(peers[k] == rest[i]);
            } else {
                assert(peers[peers.len() - 1] == all[i]);
            }
        }
        assert forall|i: int|
            0 <= i < peers.len() && (#[trigger] peers[i]).0.name != name implies all.contains(
            peers[i],
        ) by {
            if i < before.len() {
                assert(before[i] == peers[i]);
                let k = choose|k: int| 0 <= k < rest.len() && rest[k] == before[i];
                assert(all[k] == peers[i]);
            } else {
                assert(all[all.len() - 1] == peers[i]);
            }
        }
    }
}

/// The algorithm that a variable asks for: Multi-Paxos where it is missing or
/// empty.
pub open spec fn algorithm_for(raw: Option<Seq<char>>) -> Option<Algorithm> {
    match raw {
        None => Some(Algorithm::Paxos),
        Some(name) => if name == ""@ {
            Some(Algorithm::Paxos)
        } else {
            Algorithm::of(name)
        },
    }
}

/// Reads the algorithm that a variable asks for.
pub fn resolve_algorithm(raw: Option<String>) -> (r: Result<Algorithm, SettingsError>)
    ensures
        r is Ok <==> algorithm_for(opt(raw)) is Some,
        r matches Ok(a) ==> algorithm_for(opt(raw)) == Some(a),
        r matches Err(e) ==> e is BadAlgorithm && Some((e->BadAlgorithm_0)@) == opt(raw),
{
    match raw {
        None => Ok(Algorithm::Paxos),
        Some(name) => {
            if same_text(name.as_str(), "") {
                return Ok(Algorithm::Paxos);
            }
            match Algorithm::from_name(name.as_str()) {
                Ok(algorithm) => Ok(algorithm),
                Err(_) => Err(SettingsError::BadAlgorithm(name)),
            }
        },
    }
}

/// Where decisions are kept.
#[derive(Debug)]
pub enum StorageBackend {
    Memory,
    DuckDb { path: String },
}

/// Reads where decisions are kept: in memory unless a variable says otherwise,
/// or in a database at a path.
pub fn resolve_storage(raw: Option<String>, path: Option<String>) -> (r: Result<
    StorageBackend,
    SettingsError,
>)
    ensures
        ({
            let memory = raw is None || (raw->0)@ == "memory"@;
            let database = raw is Some && (raw->0)@ == "duckdb"@;
            &&& memory ==> r is Ok && r->Ok_0 is Memory
            &&& !memory && database && path is Some ==> r is Ok && r->Ok_0 is DuckDb
                && (r->Ok_0->path)@ == (path->0)@
            &&& !memory && database && path is None ==> r is Err && r->Err_0 is Missing
                && (r->Err_0->Missing_0)@ == "DUCKDB_PATH required when STORAGE=duckdb"@
            &&& !memory && !database ==> r is Err && r->Err_0 is BadStorage
                && (r->Err_0->BadStorage_0)@ == (raw->0)@
        }),
{
    match raw {
        None => Ok(StorageBackend::Memory),
        Some(name) => {
            if same_text(name.as_str(), "memory") {
                return Ok(StorageBackend::Memory);
            }
            if same_text(name.as_str(), "duckdb") {
                return match path {
                    Some(path) => Ok(StorageBackend::DuckDb { path }),
                    None => Err(SettingsError::Missing("DUCKDB_PATH required when STORAGE=duckdb")),
                };
            }
            Err(SettingsError::BadStorage(name))
        },
    }
}

/// The variables that set up a node.
#[derive(Debug)]
pub struct Environment {
    pub transport: Option<String>,
    pub peers: Option<String>,
    pub grpc_port: Option<String>,
    pub bind_addr: Option<String>,
    pub bind_path: Option<String>,
    pub algorithm: Option<String>,
    pub data_dir: Option<String>,
}

/// How a node is reached.
#[derive(Debug)]
pub enum Transport {
    Tcp { bind_addr: String, peers: Vec<Peer> },
    Uds { bind_path: String, peers: Vec<Peer> },
}

/// How a node is set up.
#[derive(Debug)]
pub struct Settings {
    pub node_name: String,
    pub transport: Transport,
    pub grpc_port: u16,
    pub algorithm: Algorithm,
    pub data_dir: Option<String>,
}

/// What is wrong with an environment, in the order in which it is read.
pub enum Defect {
    NoTransport,
    NoPort,
    BadPort,
    NoBindAddr,
    BadPeer,
    BadTransport,
    BadAlgorithm,
}

impl Environment {
    /// The list of peers, empty where the variable is missing.
    pub open spec fn peer_list(self) -> Seq<Seq<char>> {
        match self.peers {
            Some(peers) => peer_entries(peers@),
            None => Seq::empty(),
        }
    }

    /// The first thing that is wrong.
    pub open spec fn defect(self) -> Option<Defect> {
        let peers_ok = first_bad_entry(self.peer_list()) == self.peer_list().len();
        if self.transport is None {
            Some(Defect::NoTransport)
        } else if self.grpc_port is None {
            Some(Defect::NoPort)
        } else if u16_of((self.grpc_port->0)@) is None {
            Some(Defect::BadPort)
        } else if (self.transport->0)@ == "tcp"@ && self.bind_addr is None {
            Some(Defect::NoBindAddr)
        } else if ((self.transport->0)@ == "tcp"@ || (self.transport->0)@ == "uds"@) && !peers_ok {
            Some(Defect::BadPeer)
        } else if (self.transport->0)@ != "tcp"@ && (self.transport->0)@ != "uds"@ {
            Some(Defect::BadTransport)
        } else if algorithm_for(opt(self.algorithm)) is None {
            Some(Defect::BadAlgorithm)
        } else {
            None
        }
    }

    /// Whether an error tells a defect.
    pub open spec fn told_by(self, defect: Defect, error: SettingsError) -> bool {
        match defect {
            Defect::NoTransport => error is Missing && (error->Missing_0)@ == "TRANSPORT env var required"@,
            Defect::NoPort => error is Missing && (error->Missing_0)@ == "GRPC_PORT env var required"@,
            Defect::BadPort => error is BadPort,
            Defect::NoBindAddr => error is Missing && (error->Missing_0)@ == "BIND_ADDR required for tcp transport"@,
            Defect::BadPeer => error is BadPeer && (error->entry)@
                == self.peer_list()[first_bad_entry(self.peer_list()) as int] && (error->form)@ == (
            if (self.transport->0)@ == "tcp"@ {
                "name=addr"@
            } else {
                "name=path"@
            }),
            Defect::BadTransport => error is BadTransport && (error->BadTransport_0)@ == (
            self.transport->0)@,
            Defect::BadAlgorithm => error is BadAlgorithm && Some((error->BadAlgorithm_0)@) == opt(
                self.algorithm,
            ),
        }
    }
}

impl Settings {
    /// Whether these are the settings that an environment asks for.
    pub open spec fn follow(self, env: Environment, node_name: Seq<char>) -> bool {
        let peers = others(peers_of(env.peer_list()), node_name);
        &&& self.node_name@ == node_name
        &&& match self.transport {
            Transport::Tcp { bind_addr, peers: list } => {
                &&& (env.transport->0)@ == "tcp"@
                &&& bind_addr@ == (env.bind_addr->0)@
                &&& peer_views(list@) == peers
            },
            Transport::Uds { bind_path, peers: list } => {
                &&& (env.transport->0)@ == "uds"@
                &&& bind_path@ == (match env.bind_path {
                    Some(path) => path@,
                    None => "/sockets/"@ + node_name + ".sock"@,
                })
                &&& peer_views(list@) == peers
            },
        }
        &&& Some(self.grpc_port) == u16_of((env.grpc_port->0)@)
        &&& Some(self.algorithm) == algorithm_for(opt(env.algorithm))
        &&& opt(self.data_dir) == opt(env.data_dir)
    }
}

/// The name of a node: the one it was given, or that of its host.
pub fn resolve_node_name(node_name: Option<String>, hostname: Option<String>) -> (name: Option<
    String,
>)
    ensures
        opt(name) == (if node_name is Some {
            opt(node_name)
        } else {
            opt(hostname)
        }),
{
    match node_name {
        Some(name) => Some(name),
        None => hostname,
    }
}

/// Reads the peers of a node, without itself.
fn peers_from(peers: &Option<String>, form: &'static str, node_name: &str) -> (r: Result<
    Vec<Peer>,
    SettingsError,
>)
    ensures
        ({
            let entries = match *peers {
                Some(p) => peer_entries(p@),
                None => Seq::empty(),
            };
            let bad = first_bad_entry(entries);
            &&& r is Ok <==> bad == entries.len()
            &&& r matches Ok(list) ==> peer_views(list@) == others(peers_of(entries), node_name@)
            &&& r matches Err(e) ==> e is BadPeer && (e->entry)@ == entries[bad as int] && (
            e->form)@ == form@
        }),
{
    match peers {
        Some(p) => match parse_peers(p.as_str(), form) {
            Ok(list) => Ok(without_self(list, node_name)),
            Err(e) => Err(e),
        },
        None => {
            let list: Vec<Peer> = Vec::new();
            assert(peer_views(list@) =~= Seq::empty());
            assert(peers_of(Seq::empty()) =~= Seq::empty());
            Ok(list)
        },
    }
}

/// Sets up a node from its environment.
pub fn parse_config(env: Environment, node_name: String) -> (r: Result<Settings, SettingsError>)
    ensures
        r is Ok <==> env.defect() is None,
        r matches Ok(settings) ==> settings.follow(env, node_name@),
        r matches Err(e) ==> env.defect() is Some && env.told_by(env.defect()->0, e),
{
    let transport_name: String = match env.transport {
        Some(name) => name,
        None => return Err(SettingsError::Missing("TRANSPORT env var required")),
    };
    let port_text: String = match env.grpc_port {
        Some(port) => port,
        None => return Err(SettingsError::Missing("GRPC_PORT env var required")),
    };
    let grpc_port: u16 = match parse_u16(port_text.as_str()) {
        Some(port) => port,
        None => return Err(SettingsError::BadPort),
    };
    proof {
        reveal_strlit("tcp");
        reveal_strlit("uds");
        assert("tcp"@[0] != "uds"@[0]);
    }
    let transport: Transport = if same_text(transport_name.as_str(), "tcp") {
        let bind_addr: String = match env.bind_addr {
            Some(addr) => addr,
            None => return Err(SettingsError::Missing("BIND_ADDR required for tcp transport")),
        };
        match peers_from(&env.peers, "name=addr", node_name.as_str()) {
            Ok(peers) => Transport::Tcp { bind_addr, peers },
            Err(e) => return Err(e),
        }
    } else if same_text(transport_name.as_str(), "uds") {
        let bind_path: String = match env.bind_path {
            Some(path) => path,
            None => "/sockets/".to_owned().concat(node_name.as_str()).concat(".sock"),
        };
        match peers_from(&env.peers, "name=path", node_name.as_str()) {
            Ok(peers) => Transport::Uds { bind_path, peers },
            Err(e) => return Err(e),
        }
    } else {
        return Err(SettingsError::BadTransport(transport_name));
    };
    let algorithm: Algorithm = match resolve_algorithm(env.algorithm) {
        Ok(algorithm) => algorithm,
        Err(e) => return Err(e),
    };
    Ok(Settings { node_name, transport, grpc_port, algorithm, data_dir: env.data_dir })
}

/// A node can be set up exactly if its transport is known, its port is a number of
/// 16 bits, it has an address to bind where it needs one, each peer has a `=`, and
/// its algorithm is known, missing or empty.
pub proof fn environments_without_a_defect(env: Environment)
    ensures
        env.defect() is None <==> {
            let tcp = env.transport is Some && (env.transport->0)@ == "tcp"@;
            let uds = env.transport is Some && (env.transport->0)@ == "uds"@;
            &&& tcp || uds
            &&& env.grpc_port is Some && u16_of((env.grpc_port->0)@) is Some
            &&& tcp ==> env.bind_addr is Some
            &&& env.peers is Some && (env.peers->0)@.len() > 0 ==> forall|i: int|
                0 <= i < parts((env.peers->0)@, ',').len() ==> (#[trigger] parts(
                    (env.peers->0)@,
                    ',',
                )[i]).contains('=')
            &&& env.algorithm is None || (env.algorithm->0)@ == ""@ || (env.algorithm->0)@
                == "paxos"@ || (env.algorithm->0)@ == "raft"@
        },
{
    let entries = env.peer_list();
    the_first_bad_entry_is_told(entries);
    if env.peers is Some && (env.peers->0)@.len() > 0 {
        let all = parts((env.peers->0)@, ',');
        assert(entries == all);
        if forall|i: int| 0 <= i < all.len() ==> (#[trigger] all[i]).contains('=') {
            if first_bad_entry(entries) < entries.len() {
                assert(all[first_bad_entry(entries) as int].contains('='));
            }
        }
    }
}

/// A missing algorithm is Multi-Paxos, and so is an empty one; every other is
/// found under its name.
pub proof fn algorithms_are_found(algorithm: Algorithm)
    ensures
        algorithm_for(None) == Some(Algorithm::Paxos),
        algorithm_for(Some(""@)) == Some(Algorithm::Paxos),
        algorithm_for(Some(algorithm.name())) == Some(algorithm),
{
    names_are_read_back(algorithm, Role::Leader);
    reveal_strlit("");
    reveal_strlit("paxos");
    reveal_strlit("raft");
    assert(algorithm.name().len() > 0);
}

/// The peers of a written list that have another name than the node.
pub open spec fn peers_but(list: Seq<(Seq<char>, Seq<char>)>, name: Seq<char>) -> Seq<
    (NodeName, Seq<char>),
> {
    list.map_values(
        |p: (Seq<char>, Seq<char>)| (NodeName { name: p.0, incarnation: 0 }, p.1),
    ).filter(|p: (NodeName, Seq<char>)| p.0.name != name)
}

/// A node is set up as its environment says: the port and the peers that were written
/// there are read back, without the node itself, and so are its algorithm, where it
/// binds and where it keeps its data.
pub proof fn environments_are_read_back(
    env: Environment,
    node_name: Seq<char>,
    settings: Settings,
    port: u16,
    list: Seq<(Seq<char>, Seq<char>)>,
    algorithm: Algorithm,
)
    requires
        settings.follow(env, node_name),
        env.transport is Some,
        env.grpc_port is Some && (env.grpc_port->0)@ == decimal(port as nat),
        env.peers is Some && (env.peers->0)@ == joined(
            list.map_values(|p: (Seq<char>, Seq<char>)| peer_written(p)),
            ',',
        ),
        env.algorithm is Some && (env.algorithm->0)@ == algorithm.name(),
        forall|i: int|
            0 <= i < list.len() ==> !(#[trigger] list[i]).0.contains('=')
                && !list[i].0.contains(',') && !list[i].1.contains(','),
    ensures
        settings.node_name@ == node_name,
        settings.grpc_port == port,
        settings.algorithm == algorithm,
        opt(settings.data_dir) == opt(env.data_dir),
        (env.transport->0)@ == "tcp"@ ==> settings.transport is Tcp && settings.transport->bind_addr@
            == (env.bind_addr->0)@ && peer_views(settings.transport->Tcp_peers@) == peers_but(
            list,
            node_name,
        ),
        (env.transport->0)@ == "uds"@ ==> settings.transport is Uds && (env.bind_path is Some
            ==> settings.transport->bind_path@ == (env.bind_path->0)@) && peer_views(
            settings.transport->Uds_peers@,
        ) == peers_but(list, node_name),
{
    numbers_are_read_back(port as nat);
    peers_are_read_back(list);
    algorithms_are_found(algorithm);
    reveal_strlit("tcp");
    reveal_strlit("uds");
    assert("tcp"@[0] != "uds"@[0]);
    others_stay_in_order(peers_of(env.peer_list()), node_name);
}

/// The address of a server as a URI.
pub open spec fn uri_of(addr: Seq<char>) -> Seq<char> {
    if begins_with(addr, "http://"@) || begins_with(addr, "https://"@) {
        addr
    } else {
        "http://"@ + addr
    }
}

/// The URI of a server has a scheme, ends in the address, and is its own URI.
pub proof fn uris_have_a_scheme(addr: Seq<char>)
    ensures
        begins_with(uri_of(addr), "http://"@) || begins_with(uri_of(addr), "https://"@),
        uri_of(addr) == addr || uri_of(addr) == "http://"@ + addr,
        uri_of(uri_of(addr)) == uri_of(addr),
        begins_with(addr, "http://"@) || begins_with(addr, "https://"@) ==> uri_of(addr) == addr,
{
    beginnings_can_be_completed(addr, "http://"@, addr);
}

/// The address of a server as a URI: `http://` is put before an address without
/// a scheme.
pub fn server_uri(addr: &str) -> (uri: String)
    ensures
        uri@ == uri_of(addr@),
        uri@ == (if begins_with(addr@, "http://"@) || begins_with(addr@, "https://"@) {
            addr@
        } else {
            "http://"@ + addr@
        }),
{
    if starts_with(addr, "http://") || starts_with(addr, "https://") {
        addr.to_owned()
    } else {
        "http://".to_owned().concat(addr)
    }
}

} // verus!
