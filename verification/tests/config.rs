use concensus::config::NodeId;
use std::collections::HashSet;

#[test]
fn node_id_from_string() {
    let id = NodeId::new("node-1", 1000);
    assert_eq!(id.name(), "node-1");
    assert_eq!(id.incarnation(), 1000);
}

#[test]
fn node_id_display() {
    let id = NodeId::new("node-1", 1710412800);
    assert_eq!(id.display(), "node-1/1710412800");
}

#[test]
fn node_id_clone_is_cheap() {
    let id = NodeId::new("node-1", 1000);
    let cloned = id.clone();
    assert_eq!(id, cloned);
}

#[test]
fn node_id_ordering() {
    let a = NodeId::new("a", 100);
    let b = NodeId::new("b", 50);
    let a2 = NodeId::new("a", 200);
    assert!(a < b);
    assert!(a < a2);
}

#[test]
fn node_id_hash_consistent() {
    let id1 = NodeId::new("node-1", 1000);
    let id2 = NodeId::new("node-1", 1000);
    let mut set = HashSet::new();
    set.insert(id1);
    assert!(set.contains(&id2));
}

#[test]
fn node_id_order_is_by_bytes_and_prefix_first() {
    let short = NodeId::new("node", 9);
    let long = NodeId::new("node-1", 0);
    let accented = NodeId::new("nodé", 0);
    assert!(short < long);
    assert!(long < accented);
    assert!(!(accented < short));
    assert!(!(short < short.clone()));
    let mut all = vec![accented.clone(), long.clone(), short.clone()];
    all.sort();
    assert_eq!(all, vec![short, long, accented]);
}

#[test]
fn node_id_display_of_extreme_incarnations() {
    assert_eq!(NodeId::new("n", 0).display(), "n/0");
    assert_eq!(NodeId::new("", 10).display(), "/10");
    assert_eq!(NodeId::new("n", u64::MAX).display(), "n/18446744073709551615");
}
