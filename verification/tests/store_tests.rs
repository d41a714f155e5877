use xstore::log::Frame;
use xstore::store::Store;
use xstore::sub::{ReadOptions, SubEvent};
use xstore::Error;

fn append_topic(store: &mut Store, topic: &str) -> Frame {
    store
        .append(topic.as_bytes().to_vec(), None, None)
        .expect("append should succeed")
        .0
}

#[test]
fn ids_are_gap_free_and_in_completion_order() {
    let mut store = Store::new();
    for k in 1..=5u64 {
        let frame = append_topic(&mut store, "t");
        assert_eq!(frame.id, k);
    }
    let all = store.log.iterate(0, None);
    assert_eq!(all.len(), 5);
    for (i, f) in all.iter().enumerate() {
        assert_eq!(f.id, (i + 1) as u64);
    }
}

#[test]
fn append_assigns_fields() {
    let mut store = Store::new();
    let payload = b"payload".to_vec();
    let hash = store.cas_insert(&payload);
    let (frame, _) = store
        .append(b"ws.send".to_vec(), Some(hash.clone()), Some(0))
        .expect("append should succeed");
    assert_eq!(frame.id, 1);
    assert_eq!(frame.topic, b"ws.send".to_vec());
    assert_eq!(frame.hash, Some(hash));
    assert_eq!(frame.context, Some(0));
}

#[test]
fn append_with_dangling_hash_is_not_found() {
    let mut store = Store::new();
    let hash = store.cas_insert(&b"known".to_vec());
    let mut other = Store::new();
    let err = other
        .append(b"t".to_vec(), Some(hash), None)
        .expect_err("dangling reference must be rejected");
    assert_eq!(err, Error::NotFound);
    assert_eq!(other.log.iterate(0, None).len(), 0);
}

#[test]
fn read_with_future_cursor_is_invalid_input() {
    let mut store = Store::new();
    append_topic(&mut store, "t");
    let err = store
        .read(ReadOptions { follow: true, tail: false, last_id: Some(7) })
        .expect_err("resume cursor beyond the log must be rejected");
    assert_eq!(err, Error::InvalidInput);
}

#[test]
fn resume_subscriber_gets_everything_after_its_cursor() {
    let mut store = Store::new();
    append_topic(&mut store, "a");
    append_topic(&mut store, "b");
    append_topic(&mut store, "c");
    let token = store
        .read(ReadOptions { follow: true, tail: false, last_id: Some(1) })
        .expect("options are valid");
    let mut got = Vec::new();
    loop {
        match store.pump(token) {
            SubEvent::Deliver(f) => got.push(f.id),
            SubEvent::Live => break,
            other => panic!("unexpected event during replay: {:?}", other),
        }
    }
    assert_eq!(got, vec![2, 3]);
    let (_, deliveries) = store.append(b"d".to_vec(), None, None).unwrap();
    assert_eq!(deliveries.len(), 1);
    assert_eq!(deliveries[0].token, token);
    assert_eq!(deliveries[0].frame.id, 4);
}

#[test]
fn tail_subscriber_sees_only_new_frames() {
    let mut store = Store::new();
    for _ in 0..5 {
        append_topic(&mut store, "old");
    }
    let token = store.subscribe();
    assert!(matches!(store.pump(token), SubEvent::Idle));
    let (sixth, deliveries) = store.append(b"new".to_vec(), None, None).unwrap();
    assert_eq!(sixth.id, 6);
    assert_eq!(deliveries.len(), 1);
    assert_eq!(deliveries[0].token, token);
    assert_eq!(deliveries[0].frame.id, 6);
    assert_eq!(deliveries[0].frame.topic, b"new".to_vec());
}

#[test]
fn handoff_delivers_exactly_once() {
    let mut store = Store::new();
    append_topic(&mut store, "one");
    let token = store
        .read(ReadOptions { follow: true, tail: false, last_id: None })
        .expect("options are valid");
    let mut got = Vec::new();
    match store.pump(token) {
        SubEvent::Deliver(f) => got.push(f.id),
        other => panic!("expected a replayed frame, got {:?}", other),
    }
    // Appended while the subscriber is still replaying: no direct delivery,
    // the frame waits in the log.
    let (_, deliveries) = store.append(b"two".to_vec(), None, None).unwrap();
    assert_eq!(deliveries.len(), 0);
    match store.pump(token) {
        SubEvent::Deliver(f) => got.push(f.id),
        other => panic!("expected the concurrent frame, got {:?}", other),
    }
    assert!(matches!(store.pump(token), SubEvent::Live));
    let (_, deliveries) = store.append(b"three".to_vec(), None, None).unwrap();
    assert_eq!(deliveries.len(), 1);
    got.push(deliveries[0].frame.id);
    assert_eq!(got, vec![1, 2, 3]);
}

#[test]
fn two_appends_then_resume_from_zero() {
    let mut store = Store::new();
    let h1 = store.cas_insert(&b"first".to_vec());
    let h2 = store.cas_insert(&b"second".to_vec());
    let (f1, _) = store.append(b"ws.send".to_vec(), Some(h1.clone()), None).unwrap();
    let (f2, _) = store.append(b"ws.recv".to_vec(), Some(h2.clone()), None).unwrap();
    assert_eq!(f1.id, 1);
    assert_eq!(f1.topic, b"ws.send".to_vec());
    assert_eq!(f1.hash, Some(h1));
    assert_eq!(f2.id, 2);
    assert_eq!(f2.topic, b"ws.recv".to_vec());
    assert_eq!(f2.hash, Some(h2));
    let token = store
        .read(ReadOptions { follow: true, tail: false, last_id: Some(0) })
        .expect("options are valid");
    let mut got = Vec::new();
    loop {
        match store.pump(token) {
            SubEvent::Deliver(f) => got.push((f.id, f.topic.clone())),
            SubEvent::Live => break,
            other => panic!("unexpected event: {:?}", other),
        }
    }
    assert_eq!(
        got,
        vec![(1, b"ws.send".to_vec()), (2, b"ws.recv".to_vec())]
    );
}

#[test]
fn bounded_read_closes_once_caught_up() {
    let mut store = Store::new();
    append_topic(&mut store, "a");
    append_topic(&mut store, "b");
    let token = store
        .read(ReadOptions { follow: false, tail: false, last_id: None })
        .expect("options are valid");
    let mut got = Vec::new();
    loop {
        match store.pump(token) {
            SubEvent::Deliver(f) => got.push(f.id),
            SubEvent::Closed => break,
            other => panic!("unexpected event: {:?}", other),
        }
    }
    assert_eq!(got, vec![1, 2]);
    // Once closed, the subscriber gets no fan-out.
    let (_, deliveries) = store.append(b"c".to_vec(), None, None).unwrap();
    assert_eq!(deliveries.len(), 0);
    assert!(matches!(store.pump(token), SubEvent::Closed));
}

#[test]
fn unsubscribe_deregisters() {
    let mut store = Store::new();
    let token = store.subscribe();
    store.unsubscribe(token);
    assert!(matches!(store.pump(token), SubEvent::Unknown));
    let (_, deliveries) = store.append(b"t".to_vec(), None, None).unwrap();
    assert_eq!(deliveries.len(), 0);
}

#[test]
fn fan_out_reaches_every_live_subscriber() {
    let mut store = Store::new();
    let t1 = store.subscribe();
    let t2 = store.subscribe();
    assert_ne!(t1, t2);
    let (_, deliveries) = store.append(b"t".to_vec(), None, None).unwrap();
    let tokens: Vec<u64> = deliveries.iter().map(|d| d.token).collect();
    assert_eq!(tokens, vec![t1, t2]);
    assert!(deliveries.iter().all(|d| d.frame.id == 1));
}

#[test]
fn tail_takes_precedence_over_the_resume_cursor() {
    let mut store = Store::new();
    append_topic(&mut store, "a");
    let token = store
        .read(ReadOptions { follow: true, tail: true, last_id: Some(999) })
        .expect("tail reads ignore the resume cursor");
    assert!(matches!(store.pump(token), SubEvent::Idle));
    let (_, deliveries) = store.append(b"b".to_vec(), None, None).unwrap();
    assert_eq!(deliveries.len(), 1);
    assert_eq!(deliveries[0].frame.id, 2);
}
