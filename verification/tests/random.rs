use concensus::config::RaftConfig;
use concensus::random::{sample_election_timeout, sample_jitter};
use std::collections::HashSet;

#[test]
fn timeouts_lie_in_the_range() {
    let config = RaftConfig {
        election_timeout_min: 150,
        election_timeout_max: 300,
        heartbeat_interval: 50,
    };
    let drawn: HashSet<u64> = (0..500).map(|_| sample_election_timeout(&config)).collect();
    assert!(drawn.iter().all(|t| (150..=300).contains(t)));
    assert!(drawn.len() > 10, "timeouts vary");
}

#[test]
fn an_empty_range_has_its_lower_end() {
    let config = RaftConfig {
        election_timeout_min: 150,
        election_timeout_max: 150,
        heartbeat_interval: 50,
    };
    assert_eq!(sample_election_timeout(&config), 150);
    let config = RaftConfig {
        election_timeout_max: 100,
        ..config
    };
    assert_eq!(sample_election_timeout(&config), 150);
}

#[test]
fn jitter_is_up_to_half() {
    let drawn: HashSet<u64> = (0..500).map(|_| sample_jitter(100)).collect();
    assert!(drawn.iter().all(|j| *j <= 50));
    assert!(drawn.len() > 10, "jitter varies");
    assert_eq!(sample_jitter(0), 0);
    assert_eq!(sample_jitter(1), 0);
}
