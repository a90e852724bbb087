use concensus::settings::{
    parse_config, parse_tcp_peers, parse_uds_peers, resolve_algorithm, resolve_node_name,
    resolve_storage, server_uri, without_self, Environment, Settings, StorageBackend, Transport,
};
use concensus::text::{parse_u16, split_at_char, u64_to_string};
use concensus::types::Algorithm;

fn text(s: &str) -> Option<String> {
    Some(s.to_string())
}

fn tcp() -> Environment {
    Environment {
        transport: text("tcp"),
        peers: text("a=127.0.0.1:1,b=127.0.0.1:2"),
        grpc_port: text("50051"),
        bind_addr: text("0.0.0.0:9000"),
        bind_path: None,
        algorithm: None,
        data_dir: text("/data"),
    }
}

fn parse(env: Environment) -> Settings {
    parse_config(env, "a".to_string()).unwrap()
}

fn complaint(env: Environment) -> String {
    parse_config(env, "a".to_string()).unwrap_err().display()
}

#[test]
fn tcp_peers_are_read_in_order() {
    let peers = parse_tcp_peers("a=127.0.0.1:1,b=host=x").unwrap();
    assert_eq!(peers.len(), 2);
    assert_eq!(peers[0].0.name(), "a");
    assert_eq!(peers[0].0.incarnation(), 0);
    assert_eq!(peers[0].1, "127.0.0.1:1");
    assert_eq!(peers[1].0.name(), "b");
    assert_eq!(peers[1].1, "host=x");
}

#[test]
fn an_empty_list_has_no_peers() {
    assert!(parse_tcp_peers("").unwrap().is_empty());
    assert!(parse_uds_peers("").unwrap().is_empty());
}

#[test]
fn a_peer_without_an_address_is_refused() {
    assert_eq!(
        parse_tcp_peers("a=1,nonsense,c").unwrap_err().display(),
        "invalid peer format 'nonsense', expected 'name=addr'"
    );
    assert_eq!(
        parse_uds_peers("a=/x,").unwrap_err().display(),
        "invalid peer format '', expected 'name=path'"
    );
}

#[test]
fn a_node_is_not_its_own_peer() {
    let peers = parse_tcp_peers("a=1,b=2,a=3").unwrap();
    let rest = without_self(peers, "a");
    assert_eq!(rest.len(), 1);
    assert_eq!(rest[0].0.name(), "b");
}

#[test]
fn the_algorithm_defaults_to_paxos() {
    assert_eq!(resolve_algorithm(None).unwrap(), Algorithm::Paxos);
    assert_eq!(resolve_algorithm(text("")).unwrap(), Algorithm::Paxos);
    assert_eq!(resolve_algorithm(text("paxos")).unwrap(), Algorithm::Paxos);
    assert_eq!(resolve_algorithm(text("raft")).unwrap(), Algorithm::Raft);
    assert_eq!(
        resolve_algorithm(text("zab")).unwrap_err().display(),
        "ALGORITHM must be 'paxos' or 'raft', got 'zab'"
    );
}

#[test]
fn the_storage_defaults_to_memory() {
    assert!(matches!(
        resolve_storage(None, text("/p")).unwrap(),
        StorageBackend::Memory
    ));
    assert!(matches!(
        resolve_storage(text("memory"), None).unwrap(),
        StorageBackend::Memory
    ));
    match resolve_storage(text("duckdb"), text("/p")).unwrap() {
        StorageBackend::DuckDb { path } => assert_eq!(path, "/p"),
        other => panic!("expected a database, got {other:?}"),
    }
    assert_eq!(
        resolve_storage(text("duckdb"), None).unwrap_err().display(),
        "DUCKDB_PATH required when STORAGE=duckdb"
    );
    assert_eq!(
        resolve_storage(text("tape"), None).unwrap_err().display(),
        "STORAGE must be 'memory' or 'duckdb', got 'tape'"
    );
}

#[test]
fn a_tcp_node_is_set_up() {
    let settings = parse(tcp());
    assert_eq!(settings.node_name, "a");
    assert_eq!(settings.grpc_port, 50051);
    assert_eq!(settings.algorithm, Algorithm::Paxos);
    assert_eq!(settings.data_dir, text("/data"));
    match settings.transport {
        Transport::Tcp { bind_addr, peers } => {
            assert_eq!(bind_addr, "0.0.0.0:9000");
            assert_eq!(peers.len(), 1);
            assert_eq!(peers[0].0.name(), "b");
        }
        other => panic!("expected tcp, got {other:?}"),
    }
}

#[test]
fn a_uds_node_has_a_default_path() {
    let mut env = tcp();
    env.transport = text("uds");
    env.peers = None;
    env.algorithm = text("raft");
    let settings = parse(env);
    assert_eq!(settings.algorithm, Algorithm::Raft);
    match settings.transport {
        Transport::Uds { bind_path, peers } => {
            assert_eq!(bind_path, "/sockets/a.sock");
            assert!(peers.is_empty());
        }
        other => panic!("expected uds, got {other:?}"),
    }

    let mut env = tcp();
    env.transport = text("uds");
    env.bind_path = text("/tmp/a.sock");
    match parse(env).transport {
        Transport::Uds { bind_path, .. } => assert_eq!(bind_path, "/tmp/a.sock"),
        other => panic!("expected uds, got {other:?}"),
    }
}

#[test]
fn what_is_wrong_is_told() {
    let mut env = tcp();
    env.transport = None;
    env.grpc_port = None;
    assert_eq!(complaint(env), "TRANSPORT env var required");

    let mut env = tcp();
    env.grpc_port = None;
    assert_eq!(complaint(env), "GRPC_PORT env var required");

    let mut env = tcp();
    env.grpc_port = text("65536");
    env.bind_addr = None;
    assert_eq!(complaint(env), "GRPC_PORT must be a valid port number");

    let mut env = tcp();
    env.bind_addr = None;
    assert_eq!(complaint(env), "BIND_ADDR required for tcp transport");

    let mut env = tcp();
    env.peers = text("b");
    assert_eq!(
        complaint(env),
        "invalid peer format 'b', expected 'name=addr'"
    );

    let mut env = tcp();
    env.transport = text("pigeon");
    env.peers = text("b");
    assert_eq!(
        complaint(env),
        "TRANSPORT must be 'tcp' or 'uds', got 'pigeon'"
    );

    let mut env = tcp();
    env.algorithm = text("zab");
    assert_eq!(
        complaint(env),
        "ALGORITHM must be 'paxos' or 'raft', got 'zab'"
    );
}

#[test]
fn the_node_name_falls_back_to_the_host() {
    assert_eq!(resolve_node_name(text("n"), text("h")), text("n"));
    assert_eq!(resolve_node_name(None, text("h")), text("h"));
    assert_eq!(resolve_node_name(None, None), None);
}

#[test]
fn a_server_address_gets_a_scheme() {
    assert_eq!(server_uri("127.0.0.1:50051"), "http://127.0.0.1:50051");
    assert_eq!(server_uri("http://h:1"), "http://h:1");
    assert_eq!(server_uri("https://h:1"), "https://h:1");
}

#[test]
fn ports_are_read() {
    assert_eq!(parse_u16("0"), Some(0));
    assert_eq!(parse_u16("+17"), Some(17));
    assert_eq!(parse_u16("00065535"), Some(65535));
    for bad in ["", "+", "-1", "65536", "1a", " 1", "99999999999999999999"] {
        assert_eq!(parse_u16(bad), None, "{bad:?}");
        assert!(bad.parse::<u16>().is_err());
    }
}

#[test]
fn texts_are_split() {
    assert_eq!(split_at_char("a,b,,c", ','), vec!["a", "b", "", "c"]);
    assert_eq!(split_at_char("", ','), vec![""]);
}

#[test]
fn numbers_become_text() {
    assert_eq!(u64_to_string(0), "0");
    assert_eq!(u64_to_string(1070), "1070");
    assert_eq!(u64_to_string(u64::MAX), "18446744073709551615");
}
