use xstore::log::Log;
use xstore::routes::{route, Route};
use xstore::store::Store;
use xstore::sub::SubEvent;

#[test]
fn get_root_streams() {
    let r = route(&b"GET".to_vec(), &b"/".to_vec());
    assert!(matches!(r, Route::Stream));
}

#[test]
fn get_cas_with_valid_digest() {
    let mut store = Store::new();
    let hash = store.cas_insert(&b"blob".to_vec());
    let mut path = b"/cas/".to_vec();
    path.extend_from_slice(&hash.to_hex());
    match route(&b"GET".to_vec(), &path) {
        Route::CasGet(d) => {
            assert_eq!(d, hash);
            assert_eq!(store.cas_read(&d).unwrap(), b"blob".to_vec());
        }
        other => panic!("expected a blob read, got {:?}", other),
    }
}

#[test]
fn get_cas_with_bad_digest_is_not_found() {
    assert!(matches!(
        route(&b"GET".to_vec(), &b"/cas/nothex".to_vec()),
        Route::NotFound
    ));
    let mut path = b"/cas/".to_vec();
    path.extend_from_slice(&[b'z'; 64]);
    assert!(matches!(route(&b"GET".to_vec(), &path), Route::NotFound));
}

#[test]
fn post_appends_under_the_path() {
    match route(&b"POST".to_vec(), &b"/ws.send".to_vec()) {
        Route::Append(topic) => assert_eq!(topic, b"/ws.send".to_vec()),
        other => panic!("expected an append, got {:?}", other),
    }
}

#[test]
fn other_methods_and_paths_are_not_found() {
    assert!(matches!(
        route(&b"DELETE".to_vec(), &b"/".to_vec()),
        Route::NotFound
    ));
    assert!(matches!(
        route(&b"GET".to_vec(), &b"/nope".to_vec()),
        Route::NotFound
    ));
}

#[test]
fn bridge_outbound_forwards_only_designated_frames() {
    let mut store = Store::new();
    let hash = store.cas_insert(&b"line out".to_vec());
    let (send_frame, _) = store
        .append(b"ws.send".to_vec(), Some(hash), None)
        .unwrap();
    let (other_frame, _) = store.append(b"ws.other".to_vec(), None, None).unwrap();
    let line = store
        .bridge_outbound(&send_frame, &b"ws.send".to_vec())
        .expect("designated frame with a blob must be forwarded");
    assert_eq!(line, b"line out\n".to_vec());
    assert!(store
        .bridge_outbound(&other_frame, &b"ws.send".to_vec())
        .is_none());
}

#[test]
fn bridge_inbound_stores_and_appends() {
    let mut store = Store::new();
    let token = store.subscribe();
    let (frame, deliveries) =
        store.bridge_inbound(&b"a line from the child".to_vec(), b"ws.recv".to_vec());
    assert_eq!(frame.id, 1);
    assert_eq!(frame.topic, b"ws.recv".to_vec());
    let hash = frame.hash.expect("inbound frames carry their blob");
    assert_eq!(
        store.cas_read(&hash).unwrap(),
        b"a line from the child".to_vec()
    );
    assert_eq!(deliveries.len(), 1);
    assert_eq!(deliveries[0].token, token);
    assert_eq!(deliveries[0].frame.id, 1);
}

#[test]
fn iterate_bounds() {
    let mut log = Log::new();
    for t in ["a", "b", "c", "d"] {
        log.append(t.as_bytes().to_vec(), None, None);
    }
    let mid: Vec<u64> = log.iterate(2, Some(3)).iter().map(|f| f.id).collect();
    assert_eq!(mid, vec![2, 3]);
    let from: Vec<u64> = log.iterate(3, None).iter().map(|f| f.id).collect();
    assert_eq!(from, vec![3, 4]);
    assert_eq!(log.iterate(9, None).len(), 0);
    assert_eq!(log.len(), 4);
}

#[test]
fn pump_on_unknown_token_reports_unknown() {
    let mut store = Store::new();
    assert!(matches!(store.pump(42), SubEvent::Unknown));
}
