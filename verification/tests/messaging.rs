//! Broadcast recipient selection: all, one, all-but-one, and an arbitrary
//! predicate; writes are invisible to scanning.

use lobby::{Lobby, ScanResult};

#[test]
fn recipients_follow_predicate() {
    let mut l = Lobby::new();
    let a = l.accept_client();
    let b = l.accept_client();
    let c = l.accept_client();
    assert_eq!(l.recipients_all(), vec![a, b, c]);
    assert_eq!(l.recipients_one(b), vec![b]);
    assert_eq!(l.recipients_one(99), Vec::<usize>::new());
    assert_eq!(l.recipients_rest(b), vec![a, c]);
    assert_eq!(l.recipients(|i: usize| i % 2 == 1), vec![a, c]);
    assert_eq!(l.recipients(|_i: usize| false), Vec::<usize>::new());
}

#[test]
fn scenario_broadcast_to_rest() {
    let mut l = Lobby::new();
    let a = l.accept_client();
    let b = l.accept_client();
    assert!(l.handshake(a, b"ann\0".to_vec()));
    assert!(l.handshake(b, b"bob\0".to_vec()));
    let _ = l.scan_events();
    // Everyone but the sender gets the message; here that is exactly b.
    assert_eq!(l.recipients_rest(a), vec![b]);
    // Writing is the other direction of the connection: no scan event.
    assert_eq!(l.scan_events(), vec![]);
}

#[test]
fn recipients_shrink_with_the_registry() {
    let mut l = Lobby::new();
    let a = l.accept_client();
    let b = l.accept_client();
    assert!(l.handshake(a, b"ann\0".to_vec()));
    assert!(l.handshake(b, b"bob\0".to_vec()));
    let _ = l.scan_events();
    l.client_closed(b);
    // Still registered until its disconnect is drained by a scan.
    assert_eq!(l.recipients_all(), vec![a, b]);
    assert_eq!(l.scan_events(), vec![(b, ScanResult::Disconnected)]);
    assert_eq!(l.recipients_all(), vec![a]);
}

#[test]
fn recipients_ascending_after_churn() {
    let mut l = Lobby::new();
    let a = l.accept_client();
    let b = l.accept_client();
    let c = l.accept_client();
    assert!(!l.handshake(a, b"x".to_vec()));
    let _ = l.scan_events();
    let d = l.accept_client();
    assert_eq!(d, a);
    // Ids come out in ascending order whatever the insertion order was.
    assert_eq!(l.recipients_all(), vec![d, b, c]);
}

#[test]
fn pre_handshake_connections_are_still_recipients() {
    let mut l = Lobby::new();
    let a = l.accept_client();
    let b = l.accept_client();
    assert!(l.handshake(a, b"ann\0".to_vec()));
    // b has not handshaken yet, but it is registered, so broadcasts
    // include it.
    assert_eq!(l.recipients_all(), vec![a, b]);
    assert_eq!(l.recipients_rest(a), vec![b]);
}
