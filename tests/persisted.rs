use dirstat_rs::persist::{Cache, CodecError};
use dirstat_rs::cache::CacheStore;
use dirstat_rs::Timestamp;

fn sample() -> Cache {
    Cache::new(
        77,
        "/home",
        vec![
            (5, (Timestamp { secs: 1_600_000_000, nanos: 12 }, 4096)),
            (6, (Timestamp { secs: 1, nanos: 999_999_999 }, u64::MAX)),
        ],
        Timestamp { secs: 1_700_000_000, nanos: 5 },
    )
}

#[test]
fn cache_bytes_decode_to_same_value() {
    let c = sample();
    let bytes = c.to_bytes();
    assert_eq!(bytes[0], 0x94);
    let d = Cache::from_bytes(&bytes).unwrap();
    assert_eq!(d.volume_id, c.volume_id);
    assert_eq!(d.expire, c.expire);
    assert_eq!(d.target_dir, c.target_dir);
    assert_eq!(d.data, c.data);
}

#[test]
fn cache_decode_rejects_garbage() {
    assert_eq!(Cache::from_bytes(&[0xc1, 0x00]).err(), Some(CodecError::Decode));
    assert_eq!(Cache::from_bytes(&[]).err(), Some(CodecError::Decode));
}

#[test]
fn cache_usable_only_when_matching() {
    let now = Timestamp { secs: 1_650_000_000, nanos: 0 };
    let store = sample().into_store("/home", now, 77);
    assert_eq!(store.lookup(5), Some((Timestamp { secs: 1_600_000_000, nanos: 12 }, 4096)));
    let store = sample().into_store("//home/", now, 77);
    assert_eq!(store.lookup(6), Some((Timestamp { secs: 1, nanos: 999_999_999 }, u64::MAX)));
    assert_eq!(sample().into_store("/srv", now, 77).lookup(5), None);
    assert_eq!(sample().into_store("/home", now, 78).lookup(5), None);
    let late = Timestamp { secs: 1_700_000_000, nanos: 6 };
    assert_eq!(sample().into_store("/home", late, 77).lookup(5), None);
    let edge = Timestamp { secs: 1_700_000_000, nanos: 5 };
    assert!(sample().into_store("/home", edge, 77).lookup(5).is_some());
}

#[test]
fn later_record_wins_and_saved_keeps_used_only() {
    let t = Timestamp { secs: 3, nanos: 0 };
    let mut store = CacheStore::from_records(&vec![(1, (t, 10)), (2, (t, 20)), (1, (t, 30))]);
    assert_eq!(store.lookup(1), Some((t, 30)));
    store.mark_used(2);
    store.store(4, t, 40);
    store.mark_used(2);
    let saved = store.to_saved(9, "/x", t);
    let mut data = saved.data.clone();
    data.sort_by_key(|e| e.0);
    assert_eq!(data, vec![(2, (t, 20)), (4, (t, 40))]);
    assert_eq!(saved.target_dir, "/x");
    assert_eq!(saved.volume_id, 9);
}

#[test]
fn depth_budget_follows_records() {
    let t = Timestamp { secs: 3, nanos: 0 };
    let empty = CacheStore::new();
    assert!(empty.is_empty());
    assert_eq!(empty.depth_budget(5), 2);
    let full = CacheStore::from_records(&vec![(1, (t, 10))]);
    assert!(!full.is_empty());
    assert_eq!(full.depth_budget(5), 6);
    assert_eq!(full.depth_budget(usize::MAX), usize::MAX);
}
