use flyo::guard::Decision;
use flyo::proxy::{build_upstream_uri, deny, forwarded_headers, is_hop_header, security_headers};
use flyo::proxy_config::TlsMode;
use flyo::ui::{asset_candidate, asset_headers, cache_control_for};

fn pairs(v: Vec<(String, String)>) -> Vec<(String, String)> {
    v
}

#[test]
fn hop_headers_are_recognized() {
    for h in ["connection", "keep-alive", "proxy-authenticate", "proxy-authorization", "te", "trailers", "transfer-encoding", "upgrade"] {
        assert!(is_hop_header(h));
    }
    assert!(!is_hop_header("host"));
    assert!(!is_hop_header("x-forwarded-for"));
}

#[test]
fn security_headers_add_hsts_only_with_tls() {
    let plain = pairs(security_headers(false, "flyo-proxy/0.1.0"));
    assert_eq!(plain.len(), 4);
    assert_eq!(plain[0], ("x-content-type-options".into(), "nosniff".into()));
    assert_eq!(plain[1], ("x-frame-options".into(), "DENY".into()));
    assert_eq!(plain[2], ("referrer-policy".into(), "strict-origin-when-cross-origin".into()));
    assert_eq!(plain[3], ("server".into(), "flyo-proxy/0.1.0".into()));
    let tls = security_headers(true, "s");
    assert_eq!(tls.len(), 5);
    assert_eq!(tls[4], ("strict-transport-security".into(), "max-age=31536000; includeSubDomains".into()));
}

#[test]
fn forwarded_headers_carry_client_and_scheme() {
    let h = forwarded_headers("10.0.0.7", true);
    assert_eq!(h[0], ("x-forwarded-for".into(), "10.0.0.7".into()));
    assert_eq!(h[1], ("x-real-ip".into(), "10.0.0.7".into()));
    assert_eq!(h[2], ("x-forwarded-proto".into(), "https".into()));
    assert_eq!(forwarded_headers("::1", false)[2].1, "http");
}

#[test]
fn upstream_uris_keep_path_and_query() {
    assert_eq!(
        build_upstream_uri(Some("http"), Some("127.0.0.1:9212"), "/api/list?path=/").as_deref(),
        Some("http://127.0.0.1:9212/api/list?path=/")
    );
    assert_eq!(build_upstream_uri(None, Some("h:1"), "/").as_deref(), Some("http://h:1/"));
    assert_eq!(build_upstream_uri(Some("http"), None, "/"), None);
}

#[test]
fn decisions_map_to_answers() {
    assert!(deny(Decision::Allow).is_none());
    let d = deny(Decision::BlockedByList).unwrap();
    assert_eq!((d.status, d.message.as_str(), d.retry_after_secs), (403, "blocked by proxy IP policy", None));
    let d = deny(Decision::BlockedByAllowList).unwrap();
    assert_eq!(d.status, 403);
    let d = deny(Decision::RateLimited { retry_after: 59_500_000_000 }).unwrap();
    assert_eq!((d.status, d.message.as_str(), d.retry_after_secs), (429, "rate limit exceeded", Some(59)));
    let d = deny(Decision::RateLimited { retry_after: 10 }).unwrap();
    assert_eq!(d.retry_after_secs, Some(1));
}

#[test]
fn tls_modes_tell_whether_tls_is_terminated() {
    assert!(!TlsMode::Plain.is_tls());
    assert!(TlsMode::SelfSigned { dns_names: vec![] }.is_tls());
    assert!(TlsMode::Files { cert: "c".into(), key: "k".into() }.is_tls());
}

#[test]
fn ui_assets_and_cache_policy() {
    assert_eq!(asset_candidate("/"), "index.html");
    assert_eq!(asset_candidate(""), "index.html");
    assert_eq!(asset_candidate("//assets/app.js"), "assets/app.js");
    assert_eq!(cache_control_for("index.html"), "no-cache, must-revalidate");
    assert_eq!(cache_control_for("assets/app-1a2b.js"), "public, max-age=31536000, immutable");
    assert_eq!(cache_control_for("favicon.ico"), "public, max-age=300");
    let (mime, cache) = asset_headers("index.html");
    assert_eq!(mime, "text/html");
    assert_eq!(cache, "no-cache, must-revalidate");
}
