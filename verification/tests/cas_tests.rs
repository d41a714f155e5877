use xstore::cas::{Cas, CasWriter};
use xstore::hash::Digest;
use xstore::store::Store;
use xstore::Error;

#[test]
fn round_trip_returns_the_inserted_bytes() {
    let mut cas = Cas::new();
    let data = b"some payload".to_vec();
    let hash = cas.insert(&data);
    assert_eq!(cas.read(&hash).unwrap(), data);
}

#[test]
fn round_trip_empty_bytes() {
    let mut cas = Cas::new();
    let data: Vec<u8> = Vec::new();
    let hash = cas.insert(&data);
    assert_eq!(cas.read(&hash).unwrap(), data);
}

#[test]
fn insert_twice_is_one_copy_with_the_same_hash() {
    let mut cas = Cas::new();
    let h1 = cas.insert(&b"hello".to_vec());
    let h2 = cas.insert(&b"hello".to_vec());
    assert_eq!(h1, h2);
    assert!(h1.equals(&h2));
    assert_eq!(cas.count(), 1);
}

#[test]
fn distinct_contents_get_distinct_entries() {
    let mut cas = Cas::new();
    let h1 = cas.insert(&b"one".to_vec());
    let h2 = cas.insert(&b"two".to_vec());
    assert_ne!(h1, h2);
    assert_eq!(cas.count(), 2);
    assert_eq!(cas.read(&h1).unwrap(), b"one".to_vec());
    assert_eq!(cas.read(&h2).unwrap(), b"two".to_vec());
}

#[test]
fn unknown_digest_is_not_found() {
    let cas = Cas::new();
    let missing = Digest::from_bytes(vec![0u8; 32]);
    assert_eq!(cas.read(&missing).unwrap_err(), Error::NotFound);
}

#[test]
fn digest_is_sha256_of_the_content() {
    let mut cas = Cas::new();
    let hash = cas.insert(&b"hello".to_vec());
    let hex: Vec<u8> = hash.to_hex();
    assert_eq!(
        String::from_utf8(hex).unwrap(),
        "2cf24dba5fb0a30e26e83b2ac5b9e29e1b161e5c1fa7425e73043362938b9824"
    );
}

#[test]
fn hex_round_trip() {
    let mut cas = Cas::new();
    let hash = cas.insert(&b"abc".to_vec());
    let parsed = Digest::from_hex(&hash.to_hex()).expect("rendering must parse back");
    assert_eq!(parsed, hash);
    assert!(Digest::from_hex(&b"zz".to_vec()).is_none());
    assert!(Digest::from_hex(&vec![b'a'; 63]).is_none());
}

#[test]
fn streamed_writer_commits_like_insert() {
    let mut cas = Cas::new();
    let mut writer: CasWriter = cas.open_writer();
    writer.write(&b"hel".to_vec());
    writer.write(&b"lo".to_vec());
    let streamed = cas.commit(writer);
    let direct = cas.insert(&b"hello".to_vec());
    assert_eq!(streamed, direct);
    assert_eq!(cas.count(), 1);
    assert_eq!(cas.read(&streamed).unwrap(), b"hello".to_vec());
}

#[test]
fn store_passthrough_round_trip_and_dedup() {
    let mut store = Store::new();
    let h1 = store.cas_insert(&b"hello".to_vec());
    let h2 = store.cas_insert(&b"hello".to_vec());
    assert_eq!(h1, h2);
    assert_eq!(store.cas.count(), 1);
    assert_eq!(store.cas_read(&h1).unwrap(), b"hello".to_vec());
    let mut w = store.cas_open();
    w.write(&b"more".to_vec());
    let h3 = store.cas_commit(w);
    assert_eq!(store.cas_read(&h3).unwrap(), b"more".to_vec());
    assert_eq!(store.cas.count(), 2);
}
