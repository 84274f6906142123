use rusting::buffer::LevelStore;
use rusting::message::PeerAddress;

fn peer(port: u16) -> PeerAddress {
    PeerAddress { host: "127.0.0.1".to_string(), port }
}

#[test]
fn later_reports_wait_for_their_level() {
    let mut store = LevelStore::new();
    store.store(2, peer(7001), "x 127.0.0.1:7001".to_string());
    store.store(2, peer(7002), "y 127.0.0.1:7002".to_string());
    store.store(3, peer(7001), "w 127.0.0.1:7001".to_string());
    store.store(2, peer(7001), "z 127.0.0.1:7001".to_string());
    assert_eq!(store.take(2), vec!["z 127.0.0.1:7001".to_string(), "y 127.0.0.1:7002".to_string()]);
    assert!(store.take(2).is_empty());
    assert!(store.take(1).is_empty());
    assert_eq!(store.take(3), vec!["w 127.0.0.1:7001".to_string()]);
}

#[test]
fn senders_are_told_apart_by_host_and_port() {
    let mut store = LevelStore::new();
    store.store(1, peer(7001), "a".to_string());
    store.store(1, PeerAddress { host: "10.0.0.1".to_string(), port: 7001 }, "b".to_string());
    assert_eq!(store.take(1), vec!["a".to_string(), "b".to_string()]);
}
