use std::time::Duration;

use flyo::net::IpAddress;
use flyo::proxy_config::{Config, ConfigErrorKind, ParseResult, TlsMode};

fn ip(s: &str) -> IpAddress {
    IpAddress::parse(s).unwrap()
}

#[test]
fn parses_minimal_config() {
    let cfg = Config::parse("Proxy.Listen 8443\nProxy.Upstream http://127.0.0.1:9212\n").unwrap();
    assert_eq!(cfg.listen, "0.0.0.0:8443");
    assert_eq!(cfg.upstream, "http://127.0.0.1:9212");
    assert!(matches!(cfg.tls, TlsMode::Plain));
}

#[test]
fn cert_files_take_precedence_over_self_signed() {
    let text = r#"
            Proxy.SelfSigned myhost
            Proxy.Cert /tmp/c.pem
            Proxy.Key /tmp/k.pem
        "#;
    let cfg = Config::parse(text).unwrap();
    assert!(matches!(cfg.tls, TlsMode::Files { .. }));
}

#[test]
fn allow_block_parses_cidr_and_bare_ip() {
    let text = "Proxy.Allow 10.0.0.0/8\nProxy.Block 1.2.3.4\n";
    let cfg = Config::parse(text).unwrap();
    assert_eq!(cfg.allow.len(), 1);
    assert!(cfg.allow[0].matches(ip("10.5.5.5")));
    assert!(!cfg.allow[0].matches(ip("11.0.0.1")));
    assert!(cfg.block[0].matches(ip("1.2.3.4")));
}

#[test]
fn rate_limit_units() {
    assert_eq!(
        Duration::from_secs(Config::parse("Proxy.RateLimit 100/min").unwrap().rate_limit.unwrap().window),
        Duration::from_secs(60)
    );
    assert_eq!(
        Duration::from_secs(Config::parse("Proxy.RateLimit 10/sec").unwrap().rate_limit.unwrap().window),
        Duration::from_secs(1)
    );
    assert_eq!(
        Duration::from_secs(Config::parse("Proxy.RateLimit 5000/hour").unwrap().rate_limit.unwrap().window),
        Duration::from_secs(3600)
    );
}

#[test]
fn unknown_unit_errors() {
    assert!(Config::parse("Proxy.RateLimit 1/year").is_err());
}

#[test]
fn defaults_without_directives() {
    let cfg = Config::parse("# nothing\n").unwrap();
    assert_eq!(cfg.listen, "0.0.0.0:8443");
    assert_eq!(cfg.upstream, "http://127.0.0.1:9212");
    assert!(matches!(cfg.tls, TlsMode::Plain));
    assert!(cfg.allow.is_empty() && cfg.block.is_empty());
    assert!(cfg.rate_limit.is_none());
    assert_eq!(cfg.log_level, "info");
}

#[test]
fn self_signed_names_default_to_localhost() {
    match Config::parse("Proxy.SelfSigned").unwrap().tls {
        TlsMode::SelfSigned { dns_names } => assert_eq!(dns_names, vec!["localhost".to_string()]),
        _ => panic!("expected self-signed"),
    }
    match Config::parse("Proxy.SelfSigned a.example b.example").unwrap().tls {
        TlsMode::SelfSigned { dns_names } => {
            assert_eq!(dns_names, vec!["a.example".to_string(), "b.example".to_string()])
        }
        _ => panic!("expected self-signed"),
    }
}

#[test]
fn cert_without_key_falls_back() {
    assert!(matches!(Config::parse("Proxy.Cert /c.pem").unwrap().tls, TlsMode::Plain));
    assert!(matches!(
        Config::parse("Proxy.Cert /c.pem\nProxy.SelfSigned").unwrap().tls,
        TlsMode::SelfSigned { .. }
    ));
    match Config::parse("Proxy.Key /k.pem\nProxy.Cert /c.pem").unwrap().tls {
        TlsMode::Files { cert, key } => {
            assert_eq!(cert, "/c.pem");
            assert_eq!(key, "/k.pem");
        }
        _ => panic!("expected files"),
    }
}

#[test]
fn rate_limit_count_and_unit_forms() {
    // The token ends at the first blank, so only "+7" is read as N/unit here.
    assert!(Config::parse("Proxy.RateLimit +7 / Minute").is_err());
    let r = Config::parse("Proxy.RateLimit \" 7 / Minute \"").unwrap().rate_limit.unwrap();
    assert_eq!(r.requests, 7);
    assert_eq!(r.window, 60);
    let r = Config::parse("Proxy.RateLimit 4294967295/s").unwrap().rate_limit.unwrap();
    assert_eq!(r.requests, u32::MAX);
    assert_eq!(r.window, 1);
    let r = Config::parse("Proxy.RateLimit 3/H").unwrap().rate_limit.unwrap();
    assert_eq!(r.window, 3600);
}

#[test]
fn every_rejection_has_its_message() {
    let e = Config::parse("Proxy.Listen").unwrap_err();
    assert!(matches!(e.kind, ConfigErrorKind::ListenRequiresAddress));
    assert_eq!(e.message(), "line 1: Proxy.Listen requires an address");
    let e = Config::parse("\nProxy.Upstream").unwrap_err();
    assert_eq!(e.line, 2);
    assert_eq!(e.message(), "line 2: Proxy.Upstream requires a URL");
    let e = Config::parse("Proxy.Allow 10.0.0.0/33").unwrap_err();
    assert_eq!(e.message(), "line 1: invalid CIDR '10.0.0.0/33'");
    let e = Config::parse("Proxy.Block 1.2.3").unwrap_err();
    assert_eq!(e.message(), "line 1: invalid IP address '1.2.3'");
    let e = Config::parse("Proxy.RateLimit 100").unwrap_err();
    assert_eq!(e.message(), "line 1: rate limit must be N/unit, got '100'");
    let e = Config::parse("Proxy.RateLimit x/min").unwrap_err();
    assert_eq!(e.message(), "line 1: invalid request count 'x'");
    let e = Config::parse("Proxy.RateLimit 4294967296/min").unwrap_err();
    assert_eq!(e.message(), "line 1: invalid request count '4294967296'");
    let e = Config::parse("Proxy.RateLimit 1/YEAR").unwrap_err();
    assert_eq!(e.message(), "line 1: unknown rate window 'year'");
}

#[test]
fn directives_without_their_value_are_told_apart() {
    for d in ["Proxy.Cert", "Proxy.Key", "Proxy.Allow", "Proxy.Block", "Proxy.RateLimit", "Proxy.LogLevel"] {
        let text = format!("# x\n{d}\n");
        assert!(matches!(Config::parse_outcome(&text), ParseResult::MissingArgument(2)));
    }
    // An earlier rejected line ends the parse before the missing value.
    assert!(matches!(Config::parse_outcome("Proxy.Listen\nProxy.Cert"), ParseResult::Rejected(_)));
}

#[test]
fn log_level_is_lowercased_and_listen_normalized() {
    let cfg = Config::parse("proxy.loglevel DEBUG\nPROXY.LISTEN [::1]:443").unwrap();
    assert_eq!(cfg.log_level, "debug");
    assert_eq!(cfg.listen, "[::1]:443");
}

#[test]
fn ipv6_rules_match_their_family_only() {
    let cfg = Config::parse("Proxy.Allow 2001:db8::/32\nProxy.Block ::1").unwrap();
    assert!(cfg.allow[0].matches(ip("2001:db8::42")));
    assert!(!cfg.allow[0].matches(ip("2001:db9::1")));
    assert!(!cfg.allow[0].matches(ip("32.1.13.184")));
    assert!(cfg.block[0].matches(ip("::1")));
    assert!(!cfg.block[0].matches(ip("::2")));
}
