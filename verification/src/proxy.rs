//! Request rules of the reverse proxy: how a guard decision is answered,
//! where a request is forwarded, and which headers are dropped or added.
use vstd::prelude::*;

use crate::guard::{Decision, NANOS_PER_SEC};
use crate::proxy_config::{TlsMode, TlsModeView};
use crate::text::{chars_eq_str, chars_of, push_str, string_of};

verus! {

/// Hop-by-hop headers, per RFC 7230 §6.1. These are never forwarded.
pub open spec fn hop_headers() -> Seq<Seq<char>> {
    seq![
        "connection"@,
        "keep-alive"@,
        "proxy-authenticate"@,
        "proxy-authorization"@,
        "te"@,
        "trailers"@,
        "transfer-encoding"@,
        "upgrade"@,
    ]
}

/// Whether a (lowercase) header name is hop-by-hop.
pub fn is_hop_header(name: &str) -> (r: bool)
    ensures
        r == hop_headers().contains(name@),
{
    let n = chars_of(name);
    let s = n.as_slice();
    let r = chars_eq_str(s, "connection") || chars_eq_str(s, "keep-alive") || chars_eq_str(
        s,
        "proxy-authenticate",
    ) || chars_eq_str(s, "proxy-authorization") || chars_eq_str(s, "te") || chars_eq_str(
        s,
        "trailers",
    ) || chars_eq_str(s, "transfer-encoding") || chars_eq_str(s, "upgrade");
    proof {
        let h = hop_headers();
        if r {
            if name@ == "connection"@ {
                assert(h[0] == name@);
            } else if name@ == "keep-alive"@ {
                assert(h[1] == name@);
            } else if name@ == "proxy-authenticate"@ {
                assert(h[2] == name@);
            } else if name@ == "proxy-authorization"@ {
                assert(h[3] == name@);
            } else if name@ == "te"@ {
                assert(h[4] == name@);
            } else if name@ == "trailers"@ {
                assert(h[5] == name@);
            } else if name@ == "transfer-encoding"@ {
                assert(h[6] == name@);
            } else {
                assert(h[7] == name@);
            }
        } else {
            assert forall|i: int| 0 <= i < h.len() implies h[i] != name@ by {
                assert(i == 0 || i == 1 || i == 2 || i == 3 || i == 4 || i == 5 || i == 6 || i == 7);
            }
        }
    }
    r
}

/// A header name and value.
pub open spec fn header(name: Seq<char>, value: Seq<char>) -> (Seq<char>, Seq<char>) {
    (name, value)
}

pub open spec fn pairs_view(v: Seq<(String, String)>) -> Seq<(Seq<char>, Seq<char>)> {
    Seq::new(v.len(), |i: int| (v[i].0@, v[i].1@))
}

/// Headers every proxied answer gets; HSTS only when the proxy itself
/// terminates HTTPS.
pub open spec fn security_header_list(https: bool, server: Seq<char>) -> Seq<(Seq<char>, Seq<char>)> {
    let base = seq![
        header("x-content-type-options"@, "nosniff"@),
        header("x-frame-options"@, "DENY"@),
        header("referrer-policy"@, "strict-origin-when-cross-origin"@),
        header("server"@, server),
    ];
    if https {
        base.push(header("strict-transport-security"@, "max-age=31536000; includeSubDomains"@))
    } else {
        base
    }
}

fn push_header(v: &mut Vec<(String, String)>, name: &str, value: String)
    ensures
        pairs_view(final(v)@) == pairs_view(old(v)@).push((name@, value@)),
{
    let n = string_of(chars_of(name).as_slice());
    let ghost nv = n@;
    let ghost vv = value@;
    v.push((n, value));
    proof {
        assert(pairs_view(v@) =~= pairs_view(old(v)@).push((nv, vv)));
    }
}

fn owned(s: &str) -> (r: String)
    ensures
        r@ == s@,
{
    string_of(chars_of(s).as_slice())
}

/// The security headers of a proxied answer (see [`security_header_list`]).
pub fn security_headers(https: bool, server: &str) -> (r: Vec<(String, String)>)
    ensures
        pairs_view(r@) == security_header_list(https, server@),
{
    let mut v: Vec<(String, String)> = Vec::new();
    proof {
        assert(pairs_view(v@) =~= Seq::<(Seq<char>, Seq<char>)>::empty());
    }
    push_header(&mut v, "x-content-type-options", owned("nosniff"));
    push_header(&mut v, "x-frame-options", owned("DENY"));
    push_header(&mut v, "referrer-policy", owned("strict-origin-when-cross-origin"));
    push_header(&mut v, "server", owned(server));
    if https {
        push_header(
            &mut v,
            "strict-transport-security",
            owned("max-age=31536000; includeSubDomains"),
        );
    }
    proof {
        assert(pairs_view(v@) =~= security_header_list(https, server@));
    }
    v
}

/// Headers a forwarded request gets: the client address, twice, and the
/// scheme the client used.
pub open spec fn forwarded_header_list(peer: Seq<char>, https: bool) -> Seq<(Seq<char>, Seq<char>)> {
    seq![
        header("x-forwarded-for"@, peer),
        header("x-real-ip"@, peer),
        header(
            "x-forwarded-proto"@,
            if https {
                "https"@
            } else {
                "http"@
            },
        ),
    ]
}

/// The forwarding headers of a request (see [`forwarded_header_list`]).
pub fn forwarded_headers(peer: &str, https: bool) -> (r: Vec<(String, String)>)
    ensures
        pairs_view(r@) == forwarded_header_list(peer@, https),
{
    let mut v: Vec<(String, String)> = Vec::new();
    proof {
        assert(pairs_view(v@) =~= Seq::<(Seq<char>, Seq<char>)>::empty());
    }
    push_header(&mut v, "x-forwarded-for", owned(peer));
    push_header(&mut v, "x-real-ip", owned(peer));
    push_header(
        &mut v,
        "x-forwarded-proto",
        owned(
            if https {
                "https"
            } else {
                "http"
            },
        ),
    );
    proof {
        assert(pairs_view(v@) =~= forwarded_header_list(peer@, https));
    }
    v
}

/// The upstream URI of a request: the upstream's scheme (`http` when it has
/// none) and authority, followed by the request's path and query; `None`
/// when the upstream has no authority.
pub open spec fn upstream_uri(
    scheme: Option<Seq<char>>,
    authority: Option<Seq<char>>,
    path_and_query: Seq<char>,
) -> Option<Seq<char>> {
    match authority {
        None => None,
        Some(a) => Some(
            match scheme {
                Some(s) => s,
                None => "http"@,
            } + "://"@ + a + path_and_query,
        ),
    }
}

pub open spec fn opt_str_view(o: Option<&str>) -> Option<Seq<char>> {
    match o {
        Some(s) => Some(s@),
        None => None,
    }
}

pub open spec fn opt_string_view(o: Option<String>) -> Option<Seq<char>> {
    match o {
        Some(s) => Some(s@),
        None => None,
    }
}

pub fn build_upstream_uri(scheme: Option<&str>, authority: Option<&str>, path_and_query: &str) -> (r:
    Option<String>)
    ensures
        opt_string_view(r) == upstream_uri(opt_str_view(scheme), opt_str_view(authority), path_and_query@),
{
    let a = match authority {
        None => {
            return None;
        },
        Some(a) => a,
    };
    let mut v: Vec<char> = Vec::new();
    match scheme {
        Some(s) => push_str(&mut v, s),
        None => push_str(&mut v, "http"),
    }
    push_str(&mut v, "://");
    push_str(&mut v, a);
    push_str(&mut v, path_and_query);
    proof {
        assert(v@ =~= upstream_uri(opt_str_view(scheme), opt_str_view(authority), path_and_query@)->0);
    }
    Some(string_of(v.as_slice()))
}

/// A refused request: status, plain-text body, and for rate limiting the
/// `Retry-After` seconds.
pub struct Denial {
    pub status: u16,
    pub message: String,
    pub retry_after_secs: Option<u64>,
}

/// Whole seconds of a wait, at least one.
pub open spec fn retry_secs(nanos: u128) -> u64 {
    let s = nanos / NANOS_PER_SEC;
    if s < 1 {
        1
    } else if s > u64::MAX {
        u64::MAX
    } else {
        s as u64
    }
}

/// How a guard decision is answered: nothing for an allowed request, 403
/// for a blocked address, 429 with `Retry-After` for a rate-limited one.
pub open spec fn denial_of(d: Decision) -> Option<(u16, Seq<char>, Option<u64>)> {
    match d {
        Decision::Allow => None,
        Decision::BlockedByList | Decision::BlockedByAllowList => Some(
            (403, "blocked by proxy IP policy"@, None),
        ),
        Decision::RateLimited { retry_after } => Some(
            (429, "rate limit exceeded"@, Some(retry_secs(retry_after))),
        ),
    }
}

pub fn deny(d: Decision) -> (r: Option<Denial>)
    ensures
        match r {
            None => denial_of(d) is None,
            Some(x) => denial_of(d) == Some((x.status, x.message@, x.retry_after_secs)),
        },
{
    match d {
        Decision::Allow => None,
        Decision::BlockedByList | Decision::BlockedByAllowList => Some(
            Denial { status: 403, message: owned("blocked by proxy IP policy"), retry_after_secs: None },
        ),
        Decision::RateLimited { retry_after } => {
            let s = retry_after / NANOS_PER_SEC;
            let secs: u64 = if s < 1 {
                1
            } else if s > u64::MAX as u128 {
                u64::MAX
            } else {
                s as u64
            };
            Some(
                Denial {
                    status: 429,
                    message: owned("rate limit exceeded"),
                    retry_after_secs: Some(secs),
                },
            )
        },
    }
}

/// Whether the proxy terminates TLS itself.
pub open spec fn terminates_tls(t: TlsModeView) -> bool {
    !(t is Plain)
}

impl TlsMode {
    pub fn is_tls(&self) -> (r: bool)
        ensures
            r == terminates_tls(self@),
    {
        match self {
            TlsMode::Plain => false,
            _ => true,
        }
    }
}

/// Whether a header name is one of the hop-by-hop headers.
pub open spec fn is_hop(name: Seq<char>) -> bool {
    hop_headers().contains(name)
}

/// No header the proxy adds is hop-by-hop, so stripping those never drops
/// one of its own; the forwarding headers carry the peer and the scheme
/// the client used, and HSTS is sent exactly when the proxy terminates TLS.
pub proof fn law_added_headers_are_end_to_end(https: bool, server: Seq<char>, peer: Seq<char>)
    ensures
        forall|k: int| 0 <= k < security_header_list(https, server).len() ==> !is_hop(
            (#[trigger] security_header_list(https, server)[k]).0,
        ),
        forall|k: int| 0 <= k < forwarded_header_list(peer, https).len() ==> !is_hop(
            (#[trigger] forwarded_header_list(peer, https)[k]).0,
        ),
        forwarded_header_list(peer, https)[0] == ("x-forwarded-for"@, peer),
        forwarded_header_list(peer, https)[1] == ("x-real-ip"@, peer),
        forwarded_header_list(peer, https)[2].1 == (if https {
            "https"@
        } else {
            "http"@
        }),
        security_header_list(https, server).len() == (if https {
            5int
        } else {
            4int
        }),
{
    reveal_strlit("connection");
    reveal_strlit("keep-alive");
    reveal_strlit("proxy-authenticate");
    reveal_strlit("proxy-authorization");
    reveal_strlit("te");
    reveal_strlit("trailers");
    reveal_strlit("transfer-encoding");
    reveal_strlit("upgrade");
    reveal_strlit("x-content-type-options");
    reveal_strlit("x-frame-options");
    reveal_strlit("referrer-policy");
    reveal_strlit("server");
    reveal_strlit("strict-transport-security");
    reveal_strlit("x-forwarded-for");
    reveal_strlit("x-real-ip");
    reveal_strlit("x-forwarded-proto");
    let h = hop_headers();
    assert forall|n: Seq<char>| #![trigger is_hop(n)] n.len() > 0 && n[0] == 'x' implies !is_hop(n) by {
        if is_hop(n) {
            let i = choose|i: int| 0 <= i < h.len() && h[i] == n;
            assert(i == 0 || i == 1 || i == 2 || i == 3 || i == 4 || i == 5 || i == 6 || i == 7);
            assert(h[i][0] != 'x');
        }
    }
    let others = seq!["referrer-policy"@, "server"@, "strict-transport-security"@];
    assert forall|j: int| 0 <= j < 3 implies !#[trigger] is_hop(others[j]) by {
        let n = others[j];
        if is_hop(n) {
            let i = choose|i: int| 0 <= i < h.len() && h[i] == n;
            assert(i == 0 || i == 1 || i == 2 || i == 3 || i == 4 || i == 5 || i == 6 || i == 7);
            assert(h[i].len() != n.len() || h[i][0] != n[0] || h[i][1] != n[1]);
        }
    }
    assert(!is_hop(others[0]));
    assert(!is_hop(others[1]));
    assert(!is_hop(others[2]));
    assert("x-content-type-options"@[0] == 'x');
    assert("x-frame-options"@[0] == 'x');
    assert("x-forwarded-for"@[0] == 'x');
    assert("x-real-ip"@[0] == 'x');
    assert("x-forwarded-proto"@[0] == 'x');
}

/// Every proxied answer is marked `nosniff`, may not be framed, sends
/// referrers only within the origin (full) or as the origin across sites,
/// and names the proxy as its server; with TLS it also pins HTTPS for a
/// year, subdomains included.
pub proof fn law_security_headers_content(https: bool, server: Seq<char>)
    ensures
        security_header_list(https, server)[0] == ("x-content-type-options"@, "nosniff"@),
        security_header_list(https, server)[1] == ("x-frame-options"@, "DENY"@),
        security_header_list(https, server)[2] == ("referrer-policy"@, "strict-origin-when-cross-origin"@),
        security_header_list(https, server)[3] == ("server"@, server),
        https ==> security_header_list(https, server)[4] == ("strict-transport-security"@,
            "max-age=31536000; includeSubDomains"@),
{
}

/// An allowed request is not refused; a blocked one gets 403 and no
/// `Retry-After`; a rate-limited one gets 429 and waits the whole seconds
/// left of its window, at least one.
pub proof fn law_denials(d: Decision)
    ensures
        d == Decision::Allow <==> denial_of(d) is None,
        (d == Decision::BlockedByList || d == Decision::BlockedByAllowList) ==> denial_of(d) == Some(
            (403u16, "blocked by proxy IP policy"@, None::<u64>),
        ),
        d matches Decision::RateLimited { retry_after } ==> {
            &&& denial_of(d) matches Some((status, _, Some(secs)))
            &&& status == 429
            &&& secs >= 1
            &&& retry_after >= 1_000_000_000 && retry_after / 1_000_000_000 <= u64::MAX ==> secs
                * 1_000_000_000 <= retry_after < (secs + 1) * 1_000_000_000
            &&& retry_after < 1_000_000_000 ==> secs == 1
        },
{
}

/// A request is forwarded to the upstream's scheme (`http` when it names
/// none) and authority, with the request's own path and query appended
/// unchanged; without an authority there is nowhere to forward to.
pub proof fn law_upstream_keeps_path_and_query(
    scheme: Option<Seq<char>>,
    authority: Option<Seq<char>>,
    pq: Seq<char>,
)
    ensures
        upstream_uri(scheme, authority, pq) is None <==> authority is None,
        authority matches Some(a) ==> {
            let u = upstream_uri(scheme, authority, pq)->0;
            let sc = match scheme {
                Some(s) => s,
                None => "http"@,
            };
            &&& u.take(sc.len() as int) == sc
            &&& u.subrange(sc.len() as int, sc.len() as int + 3) == "://"@
            &&& u.subrange(sc.len() as int + 3, sc.len() as int + 3 + a.len() as int) == a
            &&& u.skip(sc.len() as int + 3 + a.len() as int) == pq
        },
{
    reveal_strlit("://");
    if let Some(a) = authority {
        let sc = match scheme {
            Some(s) => s,
            None => "http"@,
        };
        let u = sc + "://"@ + a + pq;
        assert(u.take(sc.len() as int) =~= sc);
        assert(u.subrange(sc.len() as int, sc.len() as int + 3) =~= "://"@);
        assert(u.subrange(sc.len() as int + 3, sc.len() as int + 3 + a.len() as int) =~= a);
        assert(u.skip(sc.len() as int + 3 + a.len() as int) =~= pq);
    }
}

/// The hop-by-hop headers of RFC 7230 §6.1 that are never forwarded.
pub proof fn law_hop_headers_are_the_rfc_list(name: Seq<char>)
    ensures
        is_hop(name) <==> (name == "connection"@ || name == "keep-alive"@ || name == "proxy-authenticate"@
            || name == "proxy-authorization"@ || name == "te"@ || name == "trailers"@ || name
            == "transfer-encoding"@ || name == "upgrade"@),
{
    let h = hop_headers();
    if is_hop(name) {
        let i = choose|i: int| 0 <= i < h.len() && h[i] == name;
        assert(i == 0 || i == 1 || i == 2 || i == 3 || i == 4 || i == 5 || i == 6 || i == 7);
    }
    if name == "connection"@ {
        assert(h[0] == name);
    } else if name == "keep-alive"@ {
        assert(h[1] == name);
    } else if name == "proxy-authenticate"@ {
        assert(h[2] == name);
    } else if name == "proxy-authorization"@ {
        assert(h[3] == name);
    } else if name == "te"@ {
        assert(h[4] == name);
    } else if name == "trailers"@ {
        assert(h[5] == name);
    } else if name == "transfer-encoding"@ {
        assert(h[6] == name);
    } else if name == "upgrade"@ {
        assert(h[7] == name);
    }
}

} // verus!
