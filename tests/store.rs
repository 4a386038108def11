use spaghettinuum::announcement::Announcement;
use spaghettinuum::identity::{
    BackedIdentityLocal,
    Identity,
};
use spaghettinuum::store::{
    StoreError,
    ValueStore,
};

const NOW: u64 = 1_700_000_000_000;
const HOUR: u64 = 60 * 60 * 1000;

fn signed(secret: &BackedIdentityLocal, published: u64) -> Announcement {
    let mut message = published.to_be_bytes().to_vec();
    message.extend_from_slice(b"https://publisher.example");
    let signature = secret.sign(&message);
    Announcement { message, signature }
}

fn user() -> (Identity, BackedIdentityLocal) {
    BackedIdentityLocal::new()
}

#[test]
fn published_stamp_is_read_big_endian() {
    let (_, secret) = user();
    let a = signed(&secret, 0x0102_0304_0506_0708);
    assert_eq!(a.published(), Some(0x0102_0304_0506_0708));
    let short = Announcement { message: vec![1, 2, 3], signature: vec![] };
    assert_eq!(short.published(), None);
}

#[test]
fn storing_twice_is_idempotent() {
    let (id, secret) = user();
    let mut store = ValueStore::new();
    let a = signed(&secret, NOW);
    assert_eq!(store.store(id, a.clone(), NOW), Ok(true));
    assert_eq!(store.store(id, a.clone(), NOW + 10), Ok(false));
    assert_eq!(store.len(), 1);
    assert_eq!(store.sweep(NOW + HOUR + 5), vec![id]);
}

#[test]
fn newer_announcement_replaces_older() {
    let (id, secret) = user();
    let mut store = ValueStore::new();
    assert_eq!(store.store(id, signed(&secret, NOW), NOW), Ok(true));
    assert_eq!(store.store(id, signed(&secret, NOW - 1), NOW), Ok(false));
    assert_eq!(store.store(id, signed(&secret, NOW + 1), NOW + 1), Ok(true));
    assert_eq!(store.get(&id).unwrap().published(), Some(NOW + 1));
}

#[test]
fn announcement_from_the_future_is_rejected() {
    let (id, secret) = user();
    let mut store = ValueStore::new();
    assert_eq!(store.store(id, signed(&secret, NOW + 2 * 60 * 1000), NOW), Err(StoreError::TooNew));
    assert!(store.get(&id).is_none());
    assert_eq!(store.store(id, signed(&secret, NOW + 60 * 1000), NOW), Ok(true));
}

#[test]
fn announcement_signed_by_another_is_rejected() {
    let (id, _) = user();
    let (_, other) = user();
    let mut store = ValueStore::new();
    assert_eq!(store.store(id, signed(&other, NOW), NOW), Err(StoreError::BadSignature));
    assert_eq!(store.len(), 0);
}

#[test]
fn sweep_drops_expired_and_republishes_stale() {
    let (old_id, old_secret) = user();
    let (fresh_id, fresh_secret) = user();
    let mut store = ValueStore::new();
    store.store(old_id, signed(&old_secret, NOW), NOW).unwrap();
    store.store(fresh_id, signed(&fresh_secret, NOW + 20 * HOUR), NOW + 20 * HOUR).unwrap();
    let due = store.sweep(NOW + 24 * HOUR + 1);
    assert!(store.get(&old_id).is_none());
    assert_eq!(store.len(), 1);
    assert_eq!(due, vec![fresh_id]);
    assert_eq!(store.sweep(NOW + 24 * HOUR + 2), Vec::<Identity>::new());
}
