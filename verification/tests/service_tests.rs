use besinveri::cache::ResponseCache;
use besinveri::health::health;
use besinveri::limiter::{parse_client_ip, RateLimiter};
use besinveri::sanitize::sanitize_input;

#[test]
fn sanitizer_rejections() {
    for bad in [
        "..", "a/b", "a\\b", "a\0b", "a;b", "a*b", "a--b", "/*", "*/", "it's", "say \"hi\"", "",
        "   ",
    ] {
        assert!(sanitize_input(bad).is_err(), "kabul edilmemeliydi: {:?}", bad);
    }
    for good in ["karpuz", "Fuji Elma", "ka\u{015F}ar peyniri", "a-b_c.d"] {
        assert!(sanitize_input(good).is_ok(), "kabul edilmeliydi: {:?}", good);
    }
}

#[test]
fn sanitizer_error_status() {
    let e = sanitize_input("' OR 1=1 --").unwrap_err();
    assert_eq!(e.status, 400);
}

#[test]
fn client_ip_rightmost_forwarded() {
    assert_eq!(parse_client_ip("10.0.0.1", Some("1.2.3.4, 5.6.7.8")), "5.6.7.8");
    assert_eq!(parse_client_ip("10.0.0.1", Some(" 9.9.9.9 ")), "9.9.9.9");
    assert_eq!(parse_client_ip("10.0.0.1", None), "proxy: 10.0.0.1");
}

#[test]
fn rate_limiter_budget() {
    let mut rl = RateLimiter::new(5, 1000, 8);
    for _ in 0..5 {
        assert!(rl.check("1.2.3.4", 100));
    }
    // the sixth request in the same window is refused
    assert!(!rl.check("1.2.3.4", 200));
    // a different client keeps its own budget
    assert!(rl.check("5.6.7.8", 200));
    // a fresh window restarts the budget
    assert!(rl.check("1.2.3.4", 1100));
}

#[test]
fn rate_limiter_eviction_cap() {
    let mut rl = RateLimiter::new(1, 1000, 2);
    assert!(rl.check("a", 0));
    assert!(rl.check("b", 10));
    // the state is full; a third client evicts the oldest entry
    assert!(rl.check("c", 20));
    assert_eq!(rl.entries.len(), 2);
    // client a was evicted, so it starts a fresh budget
    assert!(rl.check("a", 30));
}

#[test]
fn cache_hit_and_expiry() {
    let mut c = ResponseCache::new(10, 600_000);
    c.store_response("/foods/list", 200, "application/json", "[1]", 1_000);
    let (ct, body) = c.get("/foods/list", 2_000).unwrap();
    assert_eq!(ct, "application/json");
    assert_eq!(body, "[1]");
    // after the time-to-live the entry no longer replays
    assert!(c.get("/foods/list", 1_000 + 600_000).is_none());
}

#[test]
fn cache_only_stores_200() {
    let mut c = ResponseCache::new(10, 600_000);
    c.store_response("/food/x", 404, "application/json", "{}", 1_000);
    assert!(c.get("/food/x", 1_001).is_none());
}

#[test]
fn cache_overwrite_slides_ttl() {
    let mut c = ResponseCache::new(10, 1_000);
    c.store_response("/t", 200, "application/json", "old", 0);
    c.store_response("/t", 200, "application/json", "new", 900);
    // the rewrite renewed the entry, so it is still live past the
    // original deadline, with the new body
    let (_, body) = c.get("/t", 1_500).unwrap();
    assert_eq!(body, "new");
}

#[test]
fn cache_evicts_oldest_when_full() {
    let mut c = ResponseCache::new(2, 600_000);
    c.store_response("/a", 200, "t", "1", 0);
    c.store_response("/b", 200, "t", "2", 10);
    c.store_response("/c", 200, "t", "3", 20);
    assert!(c.get("/a", 30).is_none());
    assert!(c.get("/b", 30).is_some());
    assert!(c.get("/c", 30).is_some());
}

#[test]
fn health_status_is_conjunction() {
    let ts = "2025-09-13T21:42:35+03:00";
    assert_eq!(health("1.0.0", true, true, ts).status, "healthy");
    assert_eq!(health("1.0.0", true, false, ts).status, "unhealthy");
    assert_eq!(health("1.0.0", false, true, ts).status, "unhealthy");
    assert_eq!(health("1.0.0", false, false, ts).status, "unhealthy");
    let h = health("1.0.0", true, true, ts);
    assert!(h.internet_connection && h.database_functionality);
    assert_eq!(h.last_updated, ts);
    assert_eq!(h.version, "1.0.0");
}
