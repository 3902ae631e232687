use flyo::guard::{Decision, Guard};
use flyo::net::{IpAddress, IpNetwork};
use flyo::proxy_config::{IpRule, RateLimit};

fn rule(s: &str) -> IpRule {
    IpRule {
        raw: s.to_string(),
        net: Some(IpNetwork::parse(s).unwrap_or_else(|| IpNetwork::from_addr(IpAddress::parse(s).unwrap()))),
    }
}

fn ip(s: &str) -> IpAddress {
    IpAddress::parse(s).unwrap()
}

#[test]
fn block_list_denies() {
    let mut g = Guard::new(vec![], vec![rule("1.2.3.4")], None);
    assert_eq!(g.check(ip("1.2.3.4")), Decision::BlockedByList);
    assert_eq!(g.check(ip("1.2.3.5")), Decision::Allow);
}

#[test]
fn allow_list_denies_others() {
    let mut g = Guard::new(vec![rule("10.0.0.0/8")], vec![], None);
    assert_eq!(g.check(ip("10.5.5.5")), Decision::Allow);
    assert_eq!(g.check(ip("11.0.0.1")), Decision::BlockedByAllowList);
}

#[test]
fn block_beats_allow() {
    let mut g = Guard::new(vec![rule("10.0.0.0/8")], vec![rule("10.0.0.42")], None);
    assert_eq!(g.check(ip("10.0.0.42")), Decision::BlockedByList);
}

#[test]
fn rate_limit_enforces_window() {
    let mut g = Guard::new(vec![], vec![], Some(RateLimit { requests: 3, window: 60 }));
    let a = ip("127.0.0.1");
    assert_eq!(g.check(a), Decision::Allow);
    assert_eq!(g.check(a), Decision::Allow);
    assert_eq!(g.check(a), Decision::Allow);
    assert!(matches!(g.check(a), Decision::RateLimited { .. }));
}

#[test]
fn rate_limit_is_per_ip() {
    let mut g = Guard::new(vec![], vec![], Some(RateLimit { requests: 1, window: 60 }));
    let a = ip("10.0.0.1");
    let b = ip("10.0.0.2");
    assert_eq!(g.check(a), Decision::Allow);
    assert!(matches!(g.check(a), Decision::RateLimited { .. }));
    assert_eq!(g.check(b), Decision::Allow);
}

#[test]
fn empty_allow_means_anyone() {
    let mut g = Guard::new(vec![], vec![], None);
    assert_eq!(g.check(ip("8.8.8.8")), Decision::Allow);
}

#[test]
fn window_resets_after_it_runs_out() {
    let mut g = Guard::new(vec![], vec![], Some(RateLimit { requests: 1, window: 1 }));
    let a = ip("10.0.0.1");
    let sec = 1_000_000_000u128;
    assert_eq!(g.check_at(a, 0), Decision::Allow);
    assert_eq!(g.check_at(a, sec / 4), Decision::RateLimited { retry_after: sec - sec / 4 });
    assert_eq!(g.check_at(a, sec), Decision::Allow);
    assert_eq!(g.check_at(a, sec + 1), Decision::RateLimited { retry_after: sec - 1 });
}

#[test]
fn zero_budget_limits_every_request() {
    let mut g = Guard::new(vec![], vec![], Some(RateLimit { requests: 0, window: 10 }));
    assert_eq!(g.check_at(ip("1.1.1.1"), 5), Decision::RateLimited { retry_after: 10_000_000_000 });
}

#[test]
fn blocked_requests_are_not_counted() {
    let mut g = Guard::new(vec![], vec![rule("10.0.0.0/8")], Some(RateLimit { requests: 1, window: 60 }));
    let a = ip("10.0.0.1");
    assert_eq!(g.check_at(a, 0), Decision::BlockedByList);
    let mut g2 = Guard::new(vec![rule("192.168.0.0/16")], vec![], Some(RateLimit { requests: 1, window: 60 }));
    assert_eq!(g2.check_at(ip("192.168.1.1"), 0), Decision::Allow);
    assert_eq!(g2.check_at(a, 0), Decision::BlockedByAllowList);
    assert_eq!(g2.check_at(a, 1), Decision::BlockedByAllowList);
}

#[test]
fn many_addresses_are_tracked_and_expired_ones_collected() {
    let mut g = Guard::new(vec![], vec![], Some(RateLimit { requests: 1, window: 1 }));
    for i in 0..5000u32 {
        assert_eq!(g.check_at(IpAddress::V4(i), 0), Decision::Allow);
    }
    assert!(matches!(g.check_at(IpAddress::V4(7), 1), Decision::RateLimited { .. }));
    // Two seconds later every window has run out; the next request starts anew.
    assert_eq!(g.check_at(IpAddress::V4(7), 2_000_000_000), Decision::Allow);
    assert!(matches!(g.check_at(IpAddress::V4(7), 2_000_000_001), Decision::RateLimited { .. }));
}
