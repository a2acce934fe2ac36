use std::cell::Cell;

use incognito::cache::CacheError;
use incognito::config::IncognitoConfig;
use incognito::error::FetchCachedError;
use incognito::id::SessionId;
use incognito::session::IncognitoSession;

fn session_with(config: IncognitoConfig) -> IncognitoSession {
    IncognitoSession::new(SessionId::new(0, "t".to_string()), 0, config)
}

fn session() -> IncognitoSession {
    session_with(IncognitoConfig::default())
}

fn small_cache_config(capacity: usize) -> IncognitoConfig {
    IncognitoConfig { cache_capacity: capacity, ..IncognitoConfig::default() }
}

#[test]
fn new_session_is_empty() {
    let s = session();
    assert_eq!(s.start_time(), 0);
    assert_eq!(s.id().serial(), 0);
    assert_eq!(s.get_cookie("x", 0), None);
    assert!(s.get_history(0).is_empty());
    assert_eq!(s.cached_bytes(), 0);
}

#[test]
fn cookie_is_visible_until_its_lifetime_ends() {
    let mut s = session();
    s.add_cookie("tok".to_string(), "abc".to_string(), 100);
    assert_eq!(s.get_cookie("tok", 100), Some("abc".to_string()));
    assert_eq!(s.get_cookie("tok", 100 + 3599), Some("abc".to_string()));
    assert_eq!(s.get_cookie("tok", 100 + 3600), None);
    assert_eq!(s.get_cookie("tok", 100 + 3601), None);
}

#[test]
fn cookie_overwrite_replaces_value_and_restarts_lifetime() {
    let mut s = session();
    s.add_cookie("tok".to_string(), "one".to_string(), 0);
    s.add_cookie("tok".to_string(), "two".to_string(), 3000);
    assert_eq!(s.get_cookie("tok", 3000), Some("two".to_string()));
    assert_eq!(s.get_cookie("tok", 4000), Some("two".to_string()));
    assert_eq!(s.get_cookie("tok", 6600), None);
}

#[test]
fn cookies_of_different_names_are_independent() {
    let mut s = session();
    s.add_cookie("a".to_string(), "1".to_string(), 0);
    s.add_cookie("b".to_string(), "2".to_string(), 10);
    assert_eq!(s.get_cookie("a", 20), Some("1".to_string()));
    assert_eq!(s.get_cookie("b", 20), Some("2".to_string()));
    assert_eq!(s.get_cookie("c", 20), None);
}

#[test]
fn expired_cookie_is_invisible_before_and_after_cleanup() {
    let mut s = session();
    s.add_cookie("tok".to_string(), "abc".to_string(), 0);
    assert_eq!(s.get_cookie("tok", 5000), None);
    s.cleanup(5000);
    assert_eq!(s.get_cookie("tok", 5000), None);
    assert_eq!(s.get_cookie("tok", 0), None);
}

#[test]
fn cleanup_keeps_live_cookies_and_drops_expired_ones() {
    let mut s = session();
    s.add_cookie("old".to_string(), "1".to_string(), 0);
    s.add_cookie("new".to_string(), "2".to_string(), 3000);
    s.cleanup(3600);
    // "old" was removed by the sweep, so even an earlier clock cannot see it
    assert_eq!(s.get_cookie("old", 10), None);
    assert_eq!(s.get_cookie("new", 3600), Some("2".to_string()));
}

#[test]
fn history_keeps_insertion_order() {
    let mut s = session();
    s.add_history("a".to_string(), 1);
    s.add_history("b".to_string(), 2);
    s.add_history("a".to_string(), 3);
    assert_eq!(s.get_history(3), vec!["a".to_string(), "b".to_string(), "a".to_string()]);
}

#[test]
fn history_excludes_visits_older_than_retention() {
    let mut s = session();
    s.add_history("a".to_string(), 0);
    s.add_history("b".to_string(), 100);
    s.add_history("c".to_string(), 1000);
    assert_eq!(s.get_history(1799), vec!["a".to_string(), "b".to_string(), "c".to_string()]);
    assert_eq!(s.get_history(1800), vec!["b".to_string(), "c".to_string()]);
    assert_eq!(s.get_history(1850), vec!["b".to_string(), "c".to_string()]);
    assert_eq!(s.get_history(2800), Vec::<String>::new());
}

#[test]
fn cleanup_prunes_history_and_is_idempotent() {
    let mut s = session();
    s.add_history("a".to_string(), 0);
    s.add_history("b".to_string(), 1000);
    s.add_cookie("c".to_string(), "v".to_string(), 0);
    s.cleanup(2000);
    assert_eq!(s.get_history(0), vec!["b".to_string()]);
    s.cleanup(2000);
    assert_eq!(s.get_history(0), vec!["b".to_string()]);
    assert_eq!(s.get_cookie("c", 0), Some("v".to_string()));
}

#[test]
fn add_to_cache_and_get_from_cache() {
    let mut s = session_with(small_cache_config(8));
    assert_eq!(s.add_to_cache("u".to_string(), vec![1, 2, 3]), Ok(()));
    assert_eq!(s.get_from_cache("u"), Some(vec![1, 2, 3]));
    assert_eq!(s.add_to_cache("big".to_string(), vec![0; 9]), Err(CacheError::CapacityExceeded));
    assert_eq!(s.get_from_cache("big"), None);
    assert_eq!(s.cached_bytes(), 3);
}

#[test]
fn fetch_cached_fetches_once_then_serves_from_cache() {
    let mut s = session();
    let calls = Cell::new(0u32);
    let stub = |_: &str| -> Result<Vec<u8>, String> {
        calls.set(calls.get() + 1);
        Ok(b"hello".to_vec())
    };
    let first = s.fetch_cached("http://x", 10, stub);
    assert_eq!(first.unwrap(), b"hello".to_vec());
    assert_eq!(calls.get(), 1);
    assert_eq!(s.get_history(10), vec!["http://x".to_string()]);
    assert_eq!(s.cached_bytes(), 5);
    let second = s.fetch_cached("http://x", 11, stub);
    assert_eq!(second.unwrap(), b"hello".to_vec());
    assert_eq!(calls.get(), 1);
    assert_eq!(s.get_history(11), vec!["http://x".to_string()]);
}

#[test]
fn fetch_cached_reports_capacity_exceeded_with_the_bytes() {
    let mut s = session_with(small_cache_config(10));
    let body = vec![7u8; 12];
    let r = s.fetch_cached("http://big", 5, |_: &str| -> Result<Vec<u8>, String> { Ok(vec![7u8; 12]) });
    match r {
        Err(FetchCachedError::CapacityExceeded(b)) => assert_eq!(b, body),
        other => panic!("unexpected result {:?}", other),
    }
    assert_eq!(s.get_from_cache("http://big"), None);
    assert_eq!(s.cached_bytes(), 0);
    assert_eq!(s.get_history(5), vec!["http://big".to_string()]);
}

#[test]
fn fetch_cached_passes_fetch_error_on_and_records_nothing() {
    let mut s = session();
    let r = s.fetch_cached("http://down", 5, |_: &str| -> Result<Vec<u8>, String> {
        Err("timed out".to_string())
    });
    match r {
        Err(FetchCachedError::Fetch(e)) => assert_eq!(e, "timed out"),
        other => panic!("unexpected result {:?}", other),
    }
    assert!(s.get_history(5).is_empty());
    assert_eq!(s.get_from_cache("http://down"), None);
}

#[test]
fn fetch_cached_hands_the_url_to_the_fetcher() {
    let mut s = session();
    let r = s.fetch_cached("http://echo", 0, |u: &str| -> Result<Vec<u8>, String> {
        Ok(u.as_bytes().to_vec())
    });
    assert_eq!(r.unwrap(), b"http://echo".to_vec());
}

#[test]
fn store_fetched_records_visit_and_caches() {
    let mut s = session();
    let r: Result<Vec<u8>, FetchCachedError<()>> = s.store_fetched("http://y", Ok(vec![1, 2]), 3);
    assert_eq!(r.unwrap(), vec![1, 2]);
    assert_eq!(s.get_history(3), vec!["http://y".to_string()]);
    assert_eq!(s.get_from_cache("http://y"), Some(vec![1, 2]));
}
