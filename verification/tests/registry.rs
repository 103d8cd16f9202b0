//! Lifecycle scenarios: connect, handshake, data, disconnect, id reuse.

use lobby::{Lobby, ScanResult};

#[test]
fn scenario_connect_then_data() {
    let mut l = Lobby::new();
    let id = l.accept_client();
    assert_eq!(id, 1);
    assert!(l.handshake(id, b"alice\0".to_vec()));
    let evs = l.scan_events();
    assert_eq!(evs, vec![(id, ScanResult::Connected)]);
    l.client_bytes(id, b"hello".to_vec());
    let evs = l.scan_events();
    assert_eq!(evs, vec![(id, ScanResult::Data(b"hello".to_vec()))]);
    assert_eq!(l.name(id), Some("alice".to_string()));
}

#[test]
fn scenario_disconnect_before_handshake() {
    let mut l = Lobby::new();
    let id = l.accept_client();
    // The stream ended before any delimiter byte arrived.
    assert!(!l.handshake(id, b"al".to_vec()));
    // Never Connected; exactly one Disconnected; then the entry is gone.
    let evs = l.scan_events();
    assert_eq!(evs, vec![(id, ScanResult::Disconnected)]);
    assert_eq!(l.name(id), None);
    assert!(!l.is_registered(id));
    assert_eq!(l.scan_events(), vec![]);
    // The id was freed and the next accept reuses it.
    assert_eq!(l.accept_client(), id);
}

#[test]
fn scenario_graceful_close() {
    let mut l = Lobby::new();
    let id = l.accept_client();
    assert!(l.handshake(id, b"dora\0".to_vec()));
    l.client_bytes(id, b"one".to_vec());
    l.client_bytes(id, b"two".to_vec());
    l.client_closed(id);
    assert_eq!(
        l.scan_events(),
        vec![(id, ScanResult::Connected), (id, ScanResult::Data(b"one".to_vec()))]
    );
    assert_eq!(l.scan_events(), vec![(id, ScanResult::Data(b"two".to_vec()))]);
    assert_eq!(l.scan_events(), vec![(id, ScanResult::Disconnected)]);
    // No further events for the id until it is reassigned.
    assert_eq!(l.scan_events(), vec![]);
    assert_eq!(l.accept_client(), id);
}

#[test]
fn ids_recycled_fifo() {
    let mut l = Lobby::new();
    let a = l.accept_client();
    let b = l.accept_client();
    let c = l.accept_client();
    assert_eq!((a, b, c), (1, 2, 3));
    // Two readers terminate, b first, then a.
    assert!(!l.handshake(b, b"".to_vec()));
    assert!(!l.handshake(a, b"x".to_vec()));
    let _ = l.scan_events();
    // Reuse comes from the pool in release order, then a fresh id.
    assert_eq!(l.accept_client(), b);
    assert_eq!(l.accept_client(), a);
    assert_eq!(l.accept_client(), 4);
    assert!(l.is_registered(c));
}

#[test]
fn empty_name_is_allowed() {
    let mut l = Lobby::new();
    let id = l.accept_client();
    assert!(l.handshake(id, b"\0".to_vec()));
    assert_eq!(l.name(id), Some(String::new()));
    assert_eq!(l.scan_events(), vec![(id, ScanResult::Connected)]);
}

#[test]
fn invalid_utf8_name_drops_connection() {
    let mut l = Lobby::new();
    let id = l.accept_client();
    assert!(!l.handshake(id, vec![0xff, 0xfe, 0x00]));
    assert_eq!(l.name(id), None);
    assert_eq!(l.scan_events(), vec![(id, ScanResult::Disconnected)]);
}

#[test]
fn multibyte_name_round_trips() {
    let mut l = Lobby::new();
    let id = l.accept_client();
    let mut buf = "héllo κ".as_bytes().to_vec();
    buf.push(0);
    assert!(l.handshake(id, buf));
    assert_eq!(l.name(id), Some("héllo κ".to_string()));
}

#[test]
fn names_survive_disconnect_until_overwritten() {
    let mut l = Lobby::new();
    let id = l.accept_client();
    assert!(l.handshake(id, b"old\0".to_vec()));
    l.client_closed(id);
    let _ = l.scan_events();
    // The name registry never evicts entries, even for a freed id.
    assert_eq!(l.name(id), Some("old".to_string()));
    let id2 = l.accept_client();
    assert_eq!(id2, id);
    assert!(l.handshake(id2, b"new\0".to_vec()));
    assert_eq!(l.name(id), Some("new".to_string()));
}

#[test]
fn can_accept_is_true_for_fresh_registry() {
    let l = Lobby::new();
    assert!(l.can_accept());
}
