//! The ring-backed key/value cache.

use std::time::Duration;

use bytes::Bytes;
use orbit::cache::frame::{decode_frame, encode_frame, OP_DELETE, OP_PUT};
use orbit::{Error, Fleet, OrbitCache, OrbitCacheRead, CACHE_PAYLOAD_MAX, CACHE_RING_KIND};

#[test]
fn reset_shadows_previous_values_inside_prefix() {
    let mut fleet = Fleet::join("cache_reset", 1).ok().expect("fleet");
    let cache = OrbitCache::with_prefix("php:");

    cache.put(&mut fleet, "token", b"old", None).expect("put");
    assert_eq!(cache.get(&fleet, "token"), Some(b"old".to_vec()));

    cache.reset(&mut fleet).expect("reset");
    assert_eq!(cache.get(&fleet, "token"), None);

    cache.put(&mut fleet, "token", b"new", None).expect("put after reset");
    assert_eq!(cache.get(&fleet, "token"), Some(b"new".to_vec()));
}

#[test]
fn cache_put_get_roundtrip() {
    let mut fleet = Fleet::join("cache", 1).ok().unwrap();
    let cache = OrbitCache::new();

    cache.put(&mut fleet, "answer", b"forty-two", None).unwrap();

    assert_eq!(cache.get(&fleet, "answer").as_deref(), Some(&b"forty-two"[..]));
}

#[test]
fn newest_put_wins() {
    let mut fleet = Fleet::join("cache", 1).ok().unwrap();
    let cache = OrbitCache::new();

    cache.put(&mut fleet, "k", b"old", None).unwrap();
    cache.put(&mut fleet, "k", b"new", None).unwrap();

    assert_eq!(cache.get(&fleet, "k").as_deref(), Some(&b"new"[..]));
}

#[test]
fn delete_shadows_older_put() {
    let mut fleet = Fleet::join("cache", 1).ok().unwrap();
    let cache = OrbitCache::new();

    cache.put(&mut fleet, "k", b"value", None).unwrap();
    let delete_id = cache.delete(&mut fleet, "k").unwrap();

    assert_eq!(cache.get(&fleet, "k"), None);
    assert_eq!(cache.get_entry(&fleet, "k").epoch(), Some(delete_id.counter()));
}

#[test]
fn prefixes_isolate_keys() {
    let mut fleet = Fleet::join("cache", 1).ok().unwrap();
    let a = OrbitCache::with_prefix("a:");
    let b = OrbitCache::with_prefix("b:");

    a.put(&mut fleet, "shared", b"A", None).unwrap();
    b.put(&mut fleet, "shared", b"B", None).unwrap();

    assert_eq!(a.get(&fleet, "shared").as_deref(), Some(&b"A"[..]));
    assert_eq!(b.get(&fleet, "shared").as_deref(), Some(&b"B"[..]));
}

#[test]
fn ttl_expiry_is_a_miss() {
    let mut fleet = Fleet::join("cache", 1).ok().unwrap();
    let cache = OrbitCache::new();
    let ttl = Duration::from_millis(1).as_millis();

    cache.put_at(&mut fleet, "short", b"value", Some(ttl), 1_000).unwrap();

    assert!(matches!(
        cache.get_entry_at(&fleet, "short", 1_003),
        OrbitCacheRead::Miss { epoch: Some(_) }
    ));
    assert!(matches!(cache.get_entry_at(&fleet, "short", 1_000), OrbitCacheRead::Hit(_)));
}

#[test]
fn oversized_frame_is_rejected() {
    let mut fleet = Fleet::join("cache", 1).ok().unwrap();
    let cache = OrbitCache::new();
    let value = vec![b'x'; CACHE_PAYLOAD_MAX];

    assert!(cache.put(&mut fleet, "too-large", &value, None).is_err());
}

#[test]
fn the_largest_frame_is_accepted() {
    let mut fleet = Fleet::join("cache", 1).ok().unwrap();
    let cache = OrbitCache::new();
    let value = vec![b'x'; CACHE_PAYLOAD_MAX - 13 - 3];
    assert!(cache.put(&mut fleet, "key", &value, None).is_ok());
    assert_eq!(cache.get(&fleet, "key"), Some(value.clone()));

    let error = cache.put(&mut fleet, "keys", &value, None).unwrap_err();
    assert_eq!(
        error,
        Error::CacheFrameTooLarge { key_len: 4, value_len: 240, max_payload: 256 }
    );
    assert_eq!(
        error.message(),
        "orbit cache frame too large: key_len=4 value_len=240 max_payload=256"
    );
}

#[test]
fn values_carry_their_position_and_expiry() {
    let mut fleet = Fleet::join("cache", 1).ok().unwrap();
    let cache = OrbitCache::new();
    assert!(cache.is_ready(&fleet));
    assert_eq!(cache.get_entry(&fleet, "k"), OrbitCacheRead::Miss { epoch: None });
    let id = cache.put_at(&mut fleet, "k", b"v", Some(50), 1_000).unwrap();
    assert_eq!(id.kind(), CACHE_RING_KIND);
    let OrbitCacheRead::Hit(entry) = cache.get_entry_at(&fleet, "k", 1_049) else {
        panic!("the value has not run out");
    };
    assert_eq!(&entry.value[..], b"v");
    assert_eq!(entry.epoch, id.counter());
    assert_eq!(entry.expires_at_ms, Some(1_050));
    assert_eq!(
        cache.get_entry_at(&fleet, "k", 1_050),
        OrbitCacheRead::Miss { epoch: Some(id.counter()) }
    );
}

#[test]
fn a_term_of_zero_lasts_one_millisecond() {
    let mut fleet = Fleet::join("cache", 1).ok().unwrap();
    let cache = OrbitCache::new();
    cache.put_at(&mut fleet, "k", b"v", Some(0), 1_000).unwrap();
    assert!(matches!(cache.get_entry_at(&fleet, "k", 1_000), OrbitCacheRead::Hit(_)));
    assert!(matches!(cache.get_entry_at(&fleet, "k", 1_001), OrbitCacheRead::Miss { .. }));
}

#[test]
fn a_reset_without_a_prefix_shadows_everything() {
    let mut fleet = Fleet::join("cache", 1).ok().unwrap();
    let all = OrbitCache::new();
    let some = OrbitCache::with_prefix("a:");
    assert_eq!(some.prefix(), "a:");
    all.put(&mut fleet, "b:k", b"kept by a:", None).unwrap();
    some.put(&mut fleet, "k", b"gone", None).unwrap();
    some.reset(&mut fleet).unwrap();
    assert_eq!(some.get(&fleet, "k"), None);
    assert!(all.get(&fleet, "b:k").is_some());
    all.reset(&mut fleet).unwrap();
    assert_eq!(all.get(&fleet, "b:k"), None);
}

#[test]
fn keys_fall_out_of_the_ring() {
    let mut fleet = Fleet::join("cache", 1).ok().unwrap();
    let cache = OrbitCache::new();
    cache.put(&mut fleet, "first", b"v", None).unwrap();
    for index in 0..1_024 {
        cache.put(&mut fleet, &format!("other:{}", index), b"x", None).unwrap();
    }
    assert_eq!(cache.get(&fleet, "first"), None);
    assert!(cache.get(&fleet, "other:0").is_some());
}

#[test]
fn cache_frames_are_laid_out_as_documented() {
    let frame = encode_frame(OP_PUT, b"key", b"value", 0x0102).unwrap();
    assert_eq!(
        &frame[..],
        &[OP_PUT, 3, 0, 5, 0, 2, 1, 0, 0, 0, 0, 0, 0, b'k', b'e', b'y', b'v', b'a', b'l', b'u', b'e']
    );
    let decoded = decode_frame(&frame).expect("a frame");
    assert_eq!(decoded.op, OP_PUT);
    assert_eq!(&frame[13..decoded.key_end], b"key");
    assert_eq!(&frame[decoded.key_end..decoded.value_end], b"value");
    assert_eq!(decoded.expires_at_ms, 0x0102);

    assert!(decode_frame(&Bytes::from_static(b"short")).is_none());
    assert!(decode_frame(&frame.slice(0..frame.len() - 1)).is_none());
    let delete = encode_frame(OP_DELETE, b"", b"", 0).unwrap();
    assert_eq!(delete.len(), 13);
}

#[test]
fn mutations_settle_their_own_keys_alone() {
    let mut fleet = Fleet::join("cache-alone", 1).expect("fleet");
    let a = OrbitCache::with_prefix("a:");
    let b = OrbitCache::with_prefix("b:");
    let plain = OrbitCache::new();
    a.put(&mut fleet, "shared", b"A", None).expect("a");
    b.put(&mut fleet, "shared", b"B", None).expect("b");
    assert_eq!(a.get(&fleet, "shared"), Some(b"A".to_vec()));
    assert_eq!(b.get(&fleet, "shared"), Some(b"B".to_vec()));
    assert_eq!(plain.get(&fleet, "a:shared"), Some(b"A".to_vec()));

    let gone = a.delete(&mut fleet, "shared").expect("delete");
    assert_eq!(gone.counter(), 2);
    assert_eq!(a.get_entry(&fleet, "shared").epoch(), Some(2));
    assert_eq!(a.get(&fleet, "shared"), None);
    assert_eq!(b.get(&fleet, "shared"), Some(b"B".to_vec()));
    a.delete(&mut fleet, "never put").expect("delete");
    a.put(&mut fleet, "shared", b"again", None).expect("put");
    assert_eq!(a.get(&fleet, "shared"), Some(b"again".to_vec()));

    let reset = b.reset(&mut fleet).expect("reset");
    assert_eq!(plain.get_entry(&fleet, "b:shared").epoch(), Some(reset.counter()));
    assert_eq!(plain.get(&fleet, "b:shared"), None);
    assert_eq!(a.get(&fleet, "shared"), Some(b"again".to_vec()));
}
