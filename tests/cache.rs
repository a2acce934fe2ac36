use incognito::cache::{BoundedCache, CacheError};

fn bytes(n: usize, fill: u8) -> Vec<u8> {
    vec![fill; n]
}

#[test]
fn put_then_get_returns_value() {
    let mut c = BoundedCache::new(10);
    assert_eq!(c.put("a".to_string(), vec![1, 2, 3]), Ok(()));
    assert_eq!(c.get("a"), Some(vec![1, 2, 3]));
    assert_eq!(c.size(), 3);
    assert_eq!(c.len(), 1);
}

#[test]
fn get_of_absent_key_is_none() {
    let mut c = BoundedCache::new(10);
    assert_eq!(c.get("missing"), None);
    c.put("a".to_string(), vec![1]).unwrap();
    assert_eq!(c.get("b"), None);
    assert_eq!(c.len(), 1);
}

#[test]
fn put_overwrites_existing_key() {
    let mut c = BoundedCache::new(10);
    c.put("a".to_string(), bytes(4, 1)).unwrap();
    c.put("a".to_string(), bytes(6, 2)).unwrap();
    assert_eq!(c.len(), 1);
    assert_eq!(c.size(), 6);
    assert_eq!(c.get("a"), Some(bytes(6, 2)));
}

#[test]
fn value_larger_than_capacity_is_refused() {
    let mut c = BoundedCache::new(10);
    c.put("keep".to_string(), bytes(3, 7)).unwrap();
    assert_eq!(c.put("big".to_string(), bytes(12, 1)), Err(CacheError::CapacityExceeded));
    assert_eq!(c.get("big"), None);
    assert_eq!(c.get("keep"), Some(bytes(3, 7)));
    assert_eq!(c.size(), 3);
}

#[test]
fn value_of_exactly_capacity_fits_and_evicts_everything_else() {
    let mut c = BoundedCache::new(10);
    c.put("a".to_string(), bytes(4, 1)).unwrap();
    c.put("b".to_string(), bytes(4, 2)).unwrap();
    assert_eq!(c.put("full".to_string(), bytes(10, 3)), Ok(()));
    assert_eq!(c.len(), 1);
    assert_eq!(c.get("a"), None);
    assert_eq!(c.get("b"), None);
    assert_eq!(c.get("full"), Some(bytes(10, 3)));
}

#[test]
fn lru_evicts_first_inserted_key() {
    // room for exactly three values of four bytes
    let mut c = BoundedCache::new(12);
    for k in ["k0", "k1", "k2", "k3"] {
        c.put(k.to_string(), bytes(4, 9)).unwrap();
    }
    assert_eq!(c.len(), 3);
    assert_eq!(c.get("k0"), None);
    assert!(c.get("k1").is_some());
    assert!(c.get("k2").is_some());
    assert!(c.get("k3").is_some());
}

#[test]
fn get_promotes_key_so_next_eviction_skips_it() {
    let mut c = BoundedCache::new(12);
    for k in ["k0", "k1", "k2"] {
        c.put(k.to_string(), bytes(4, 9)).unwrap();
    }
    assert!(c.get("k0").is_some());
    c.put("k3".to_string(), bytes(4, 9)).unwrap();
    assert!(c.get("k0").is_some());
    assert_eq!(c.get("k1"), None);
    assert!(c.get("k2").is_some());
    assert!(c.get("k3").is_some());
}

#[test]
fn eviction_removes_several_entries_until_value_fits() {
    let mut c = BoundedCache::new(10);
    c.put("a".to_string(), bytes(3, 1)).unwrap();
    c.put("b".to_string(), bytes(3, 2)).unwrap();
    c.put("c".to_string(), bytes(3, 3)).unwrap();
    c.put("d".to_string(), bytes(7, 4)).unwrap();
    assert_eq!(c.get("a"), None);
    assert_eq!(c.get("b"), None);
    assert_eq!(c.get("c"), Some(bytes(3, 3)));
    assert_eq!(c.get("d"), Some(bytes(7, 4)));
    assert_eq!(c.size(), 10);
}

#[test]
fn size_never_exceeds_capacity_over_many_puts() {
    let mut c = BoundedCache::new(50);
    for i in 0..200usize {
        let key = format!("key{}", i % 17);
        let _ = c.put(key, bytes((i * 7) % 23, i as u8));
        assert!(c.size() <= 50);
        assert!(c.size() <= c.capacity_bytes());
    }
}

#[test]
fn zero_capacity_cache_stores_only_empty_values() {
    let mut c = BoundedCache::new(0);
    assert_eq!(c.put("x".to_string(), vec![1]), Err(CacheError::CapacityExceeded));
    assert_eq!(c.put("e".to_string(), Vec::new()), Ok(()));
    assert_eq!(c.get("e"), Some(Vec::new()));
    assert_eq!(c.size(), 0);
}
