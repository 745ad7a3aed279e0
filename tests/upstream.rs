use deet::upstream::{RateLimiter, UpstreamPool};

#[test]
fn pool_tracks_servers_up() {
    let mut p = UpstreamPool::new(3);
    assert_eq!(p.len(), 3);
    assert_eq!(p.num_active(), 3);
    p.set_active(1, false);
    assert_eq!(p.num_active(), 2);
    p.set_active(1, false);
    assert_eq!(p.num_active(), 2);
    p.set_active(1, true);
    assert_eq!(p.num_active(), 3);
    p.set_active(0, false);
    p.set_active(2, false);
    assert_eq!(p.nth_active(0), 1);
    for _ in 0..20 {
        assert_eq!(p.pick(), Some(1));
    }
    p.set_active(1, false);
    assert_eq!(p.num_active(), 0);
    assert_eq!(p.pick(), None);
}

#[test]
fn nth_active_skips_servers_down() {
    let mut p = UpstreamPool::new(5);
    p.set_active(0, false);
    p.set_active(3, false);
    assert_eq!(p.nth_active(0), 1);
    assert_eq!(p.nth_active(1), 2);
    assert_eq!(p.nth_active(2), 4);
    for _ in 0..20 {
        let i = p.pick().unwrap();
        assert!(p.is_active(i));
    }
}

#[test]
fn rate_limiter_counts_per_client() {
    let mut r = RateLimiter::new(2);
    assert!(r.record("10.0.0.1"));
    assert!(r.record("10.0.0.1"));
    assert!(!r.record("10.0.0.1"));
    assert!(r.record("10.0.0.2"));
    r.clear();
    assert!(r.record("10.0.0.1"));
    let mut unlimited = RateLimiter::new(0);
    for _ in 0..10 {
        assert!(unlimited.record("a"));
    }
}
