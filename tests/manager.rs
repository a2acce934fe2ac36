use std::cell::Cell;

use incognito::config::{
    IncognitoConfig, CACHE_CAPACITY_BYTES, COOKIE_LIFETIME_SECS, HISTORY_RETENTION_SECS,
    REAPER_INTERVAL_SECS,
};
use incognito::error::{FetchCachedError, SessionNotFound};
use incognito::id::{generate_session_id, token_from_draws, SessionId, SESSION_TOKEN_LEN};
use incognito::manager::IncognitoManager;
use incognito::prefs::{load_user_preferences, DownloadStatus};

fn manager() -> IncognitoManager {
    IncognitoManager::new(IncognitoConfig::default())
}

fn hello(_: &str) -> Result<Vec<u8>, String> {
    Ok(b"hello".to_vec())
}

#[test]
fn default_config_values() {
    let c = IncognitoConfig::default();
    assert_eq!(c.cookie_lifetime, 3600);
    assert_eq!(c.history_retention, 1800);
    assert_eq!(c.cache_capacity, 100 * 1024 * 1024);
    assert_eq!(c.reaper_interval, 60);
    assert_eq!(c.cookie_lifetime, COOKIE_LIFETIME_SECS);
    assert_eq!(c.history_retention, HISTORY_RETENTION_SECS);
    assert_eq!(c.cache_capacity, CACHE_CAPACITY_BYTES);
    assert_eq!(c.reaper_interval, REAPER_INTERVAL_SECS);
}

#[test]
fn session_token_is_letters_and_digits() {
    let t = generate_session_id();
    assert_eq!(t.chars().count(), SESSION_TOKEN_LEN);
    assert!(t.chars().all(|c| c.is_ascii_alphanumeric()));
    // 32 random characters drawn from 62: two equal tokens would mean the
    // draw is not random at all
    assert_ne!(t, generate_session_id());
}

#[test]
fn created_sessions_get_distinct_ids() {
    let mut m = manager();
    let a = m.create_session(0);
    let b = m.create_session(0);
    assert_ne!(a, b);
    assert_eq!(a.serial(), 0);
    assert_eq!(b.serial(), 1);
    assert_eq!(a.token().len(), SESSION_TOKEN_LEN);
    assert_eq!(m.session_count(), 2);
    assert_eq!(m.issued_count(), 2);
}

#[test]
fn cookie_scenario_set_get_then_expire() {
    let mut m = manager();
    let s = m.create_session(0);
    assert_eq!(m.set_cookie(&s, "tok", "abc", 0), Ok(()));
    assert_eq!(m.get_cookie(&s, "tok", 0), Ok(Some("abc".to_string())));
    assert_eq!(m.get_cookie(&s, "tok", COOKIE_LIFETIME_SECS + 1), Ok(None));
}

#[test]
fn fetch_scenario_second_fetch_is_served_from_cache() {
    let mut m = manager();
    let s = m.create_session(0);
    let calls = Cell::new(0u32);
    let stub = |_: &str| -> Result<Vec<u8>, String> {
        calls.set(calls.get() + 1);
        Ok(b"hello".to_vec())
    };
    assert_eq!(m.fetch_cached(&s, "http://x", 1, stub).unwrap(), b"hello".to_vec());
    assert_eq!(m.get_history(&s, 1), Ok(vec!["http://x".to_string()]));
    assert_eq!(m.get_session(&s).unwrap().cached_bytes(), 5);
    assert_eq!(m.fetch_cached(&s, "http://x", 2, stub).unwrap(), b"hello".to_vec());
    assert_eq!(calls.get(), 1);
    assert_eq!(m.get_history(&s, 2), Ok(vec!["http://x".to_string()]));
}

#[test]
fn fetch_scenario_oversized_response_is_returned_but_not_cached() {
    let config = IncognitoConfig { cache_capacity: 10, ..IncognitoConfig::default() };
    let mut m = IncognitoManager::new(config);
    let s = m.create_session(0);
    let body: Vec<u8> = (0..12u8).collect();
    let r = m.fetch_cached(&s, "http://big", 0, |_: &str| -> Result<Vec<u8>, String> {
        Ok((0..12u8).collect())
    });
    match r {
        Err(FetchCachedError::CapacityExceeded(b)) => assert_eq!(b, body),
        other => panic!("unexpected result {:?}", other),
    }
    assert_eq!(m.get_cached(&s, "http://big"), Ok(None));
    assert_eq!(m.get_session(&s).unwrap().cached_bytes(), 0);
}

#[test]
fn sessions_are_isolated() {
    let mut m = manager();
    let a = m.create_session(0);
    let b = m.create_session(0);
    m.set_cookie(&a, "tok", "secret", 0).unwrap();
    m.fetch_cached(&a, "http://a", 0, hello).unwrap();
    assert_eq!(m.get_cookie(&b, "tok", 0), Ok(None));
    assert_eq!(m.get_history(&b, 0), Ok(Vec::new()));
    assert_eq!(m.get_cached(&b, "http://a"), Ok(None));
    assert_eq!(m.get_cookie(&a, "tok", 0), Ok(Some("secret".to_string())));
    m.remove_session(&b);
    assert_eq!(m.get_cookie(&a, "tok", 0), Ok(Some("secret".to_string())));
    assert_eq!(m.get_history(&a, 0), Ok(vec!["http://a".to_string()]));
}

#[test]
fn forged_id_with_live_serial_is_not_found() {
    let mut m = manager();
    let a = m.create_session(0);
    let forged = SessionId::new(a.serial(), "not-the-token".to_string());
    assert_eq!(m.set_cookie(&forged, "x", "y", 0), Err(SessionNotFound));
    assert_eq!(m.get_cookie(&a, "x", 0), Ok(None));
}

#[test]
fn teardown_is_idempotent() {
    let mut m = manager();
    let a = m.create_session(0);
    let b = m.create_session(0);
    m.set_cookie(&b, "k", "v", 0).unwrap();
    m.remove_session(&a);
    assert_eq!(m.session_count(), 1);
    m.remove_session(&a);
    assert_eq!(m.session_count(), 1);
    m.remove_session(&SessionId::new(77, "unknown".to_string()));
    assert_eq!(m.session_count(), 1);
    assert_eq!(m.get_cookie(&b, "k", 0), Ok(Some("v".to_string())));
}

#[test]
fn ended_session_reports_not_found_everywhere() {
    let mut m = manager();
    let a = m.create_session(0);
    m.remove_session(&a);
    assert!(m.get_session(&a).is_none());
    assert_eq!(m.set_cookie(&a, "k", "v", 0), Err(SessionNotFound));
    assert_eq!(m.get_cookie(&a, "k", 0), Err(SessionNotFound));
    assert_eq!(m.get_history(&a, 0), Err(SessionNotFound));
    assert_eq!(m.get_cached(&a, "u"), Err(SessionNotFound));
    let fetched: Result<Vec<u8>, String> = Ok(vec![1]);
    assert!(matches!(
        m.store_fetched(&a, "u", fetched, 0),
        Err(FetchCachedError::SessionNotFound)
    ));
    let called = Cell::new(false);
    let r = m.fetch_cached(&a, "u", 0, |_: &str| -> Result<Vec<u8>, String> {
        called.set(true);
        Ok(vec![1])
    });
    assert!(matches!(r, Err(FetchCachedError::SessionNotFound)));
    assert!(!called.get());
    // a new session never reuses the ended one's identifier
    let b = m.create_session(0);
    assert_ne!(a, b);
    assert_eq!(m.get_cookie(&a, "k", 0), Err(SessionNotFound));
}

#[test]
fn fetch_error_is_passed_on() {
    let mut m = manager();
    let s = m.create_session(0);
    let r = m.fetch_cached(&s, "http://down", 0, |_: &str| -> Result<Vec<u8>, String> {
        Err("refused".to_string())
    });
    assert!(matches!(r, Err(FetchCachedError::Fetch(ref e)) if e == "refused"));
    assert_eq!(m.get_history(&s, 0), Ok(Vec::new()));
}

#[test]
fn two_phase_fetch_matches_fetch_cached() {
    let mut m = manager();
    let s = m.create_session(0);
    assert_eq!(m.get_cached(&s, "http://p"), Ok(None));
    let fetched: Result<Vec<u8>, String> = Ok(vec![4, 5, 6]);
    assert_eq!(m.store_fetched(&s, "http://p", fetched, 9).unwrap(), vec![4, 5, 6]);
    assert_eq!(m.get_cached(&s, "http://p"), Ok(Some(vec![4, 5, 6])));
    assert_eq!(m.get_history(&s, 9), Ok(vec!["http://p".to_string()]));
}

#[test]
fn cleanup_sessions_sweeps_every_session() {
    let mut m = manager();
    let a = m.create_session(0);
    let b = m.create_session(0);
    m.set_cookie(&a, "old", "1", 0).unwrap();
    m.set_cookie(&b, "old", "2", 0).unwrap();
    m.set_cookie(&b, "new", "3", 3500).unwrap();
    m.fetch_cached(&a, "http://early", 0, hello).unwrap();
    m.cleanup_sessions(4000);
    assert_eq!(m.session_count(), 2);
    assert_eq!(m.get_cookie(&a, "old", 0), Ok(None));
    assert_eq!(m.get_cookie(&b, "old", 0), Ok(None));
    assert_eq!(m.get_cookie(&b, "new", 4000), Ok(Some("3".to_string())));
    assert_eq!(m.get_history(&a, 0), Ok(Vec::new()));
    // the cache has no time-based expiry
    assert_eq!(m.get_cached(&a, "http://early"), Ok(Some(b"hello".to_vec())));
}

#[test]
fn default_preferences() {
    let p = load_user_preferences();
    assert_eq!(p.user_agent, "Aluminum/1.0 (https://aluminum.browser.org)");
    assert_eq!(p.default_homepage, "https://www.aluminum.browser.org");
    assert_eq!(p.max_concurrent_connections, 6);
    assert!(p.enable_javascript);
    assert!(p.enable_cookies);
    assert!(!p.enable_private_browsing);
    assert_eq!(p.default_download_path, "/home/user/Downloads");
    assert_eq!(p.custom_css, None);
    assert_ne!(DownloadStatus::Pending, DownloadStatus::Completed);
}

#[test]
fn token_from_draws_maps_each_draw_to_its_character() {
    assert_eq!(token_from_draws(&vec![0, 25, 26, 51, 52, 61]), "AZaz09");
    assert_eq!(token_from_draws(&vec![7, 4, 11, 11, 14]), "HELLO");
    assert_eq!(token_from_draws(&Vec::new()), "");
    let all: Vec<usize> = (0..62).collect();
    assert_eq!(
        token_from_draws(&all),
        "ABCDEFGHIJKLMNOPQRSTUVWXYZabcdefghijklmnopqrstuvwxyz0123456789"
    );
}

#[test]
fn generated_tokens_differ_between_sessions() {
    let mut m = manager();
    let a = m.create_session(0);
    let b = m.create_session(0);
    assert_ne!(a.token(), b.token());
    assert!(a.token().chars().all(|c| c.is_ascii_alphanumeric()));
}
