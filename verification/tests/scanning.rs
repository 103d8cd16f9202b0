//! Scan behaviour: non-blocking polls, event order, errors, callbacks.

use std::cell::RefCell;
use lobby::{Lobby, NetError, ScanResult};

#[test]
fn quiet_scan_reports_nothing() {
    let mut l = Lobby::new();
    assert_eq!(l.scan_events(), vec![]);
    let id = l.accept_client();
    assert!(l.handshake(id, b"eve\0".to_vec()));
    let _ = l.scan_events();
    // Nothing pending: zero events, and the registry is unchanged.
    assert_eq!(l.scan_events(), vec![]);
    assert!(l.is_registered(id));
}

#[test]
fn io_error_reported_then_connection_survives() {
    let mut l = Lobby::new();
    let id = l.accept_client();
    assert!(l.handshake(id, b"sam\0".to_vec()));
    let _ = l.scan_events();
    l.client_error(id, NetError { code: 104 });
    l.client_bytes(id, b"after".to_vec());
    // The error is reported once, and the connection keeps going.
    assert_eq!(l.scan_events(), vec![(id, ScanResult::IoError(NetError { code: 104 }))]);
    assert_eq!(l.scan_events(), vec![(id, ScanResult::Data(b"after".to_vec()))]);
    assert!(l.is_registered(id));
}

#[test]
fn one_event_per_connection_per_scan() {
    let mut l = Lobby::new();
    let a = l.accept_client();
    let b = l.accept_client();
    assert!(l.handshake(a, b"ann\0".to_vec()));
    assert!(l.handshake(b, b"bob\0".to_vec()));
    let _ = l.scan_events();
    l.client_bytes(a, b"a1".to_vec());
    l.client_bytes(a, b"a2".to_vec());
    l.client_bytes(b, b"b1".to_vec());
    // Each registered id is visited exactly once per scan.
    assert_eq!(
        l.scan_events(),
        vec![(a, ScanResult::Data(b"a1".to_vec())), (b, ScanResult::Data(b"b1".to_vec()))]
    );
    assert_eq!(l.scan_events(), vec![(a, ScanResult::Data(b"a2".to_vec()))]);
}

#[test]
fn connected_precedes_data_in_one_scan() {
    let mut l = Lobby::new();
    let id = l.accept_client();
    assert!(l.handshake(id, b"pat\0".to_vec()));
    l.client_bytes(id, b"hi".to_vec());
    let evs = l.scan_events();
    assert_eq!(
        evs,
        vec![(id, ScanResult::Connected), (id, ScanResult::Data(b"hi".to_vec()))]
    );
    // The name was readable no later than the Connected event.
    assert_eq!(l.name(id), Some("pat".to_string()));
}

#[test]
fn scan_callback_delivers_in_order() {
    let mut l = Lobby::new();
    let id = l.accept_client();
    assert!(l.handshake(id, b"kim\0".to_vec()));
    l.client_bytes(id, b"zz".to_vec());
    let seen: RefCell<Vec<(usize, ScanResult)>> = RefCell::new(Vec::new());
    l.scan(|i, r| seen.borrow_mut().push((i, r)));
    assert_eq!(
        seen.into_inner(),
        vec![(id, ScanResult::Connected), (id, ScanResult::Data(b"zz".to_vec()))]
    );
}

#[test]
fn scan_callback_untouched_when_quiet() {
    let mut l = Lobby::new();
    let calls: RefCell<usize> = RefCell::new(0);
    l.scan(|_i, _r| *calls.borrow_mut() += 1);
    assert_eq!(calls.into_inner(), 0);
}

#[test]
fn byte_stream_concatenates_in_order() {
    let mut l = Lobby::new();
    let id = l.accept_client();
    assert!(l.handshake(id, b"joe\0".to_vec()));
    let _ = l.scan_events();
    for chunk in [&b"ab"[..], b"c", b"def"] {
        l.client_bytes(id, chunk.to_vec());
    }
    let mut got = Vec::new();
    loop {
        let evs = l.scan_events();
        if evs.is_empty() {
            break;
        }
        for (i, ev) in evs {
            assert_eq!(i, id);
            match ev {
                ScanResult::Data(d) => got.extend_from_slice(&d),
                other => panic!("unexpected event: {:?}", other),
            }
        }
    }
    assert_eq!(got, b"abcdef".to_vec());
}
