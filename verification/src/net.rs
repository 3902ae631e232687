//! IP addresses and networks as plain integers, with the prefix containment
//! test that allow and block rules use.
use vstd::prelude::*;

verus! {

/// An IPv4 or IPv6 address, as its big-endian integer value.
#[derive(Clone, Copy, Debug, PartialEq, Eq, Structural)]
pub enum IpAddress {
    V4(u32),
    V6(u128),
}

/// An address with a prefix length, such as `10.0.0.0/8`; the prefix
/// length never exceeds the width of the address family.
#[derive(Clone, Copy, Debug)]
pub struct IpNetwork {
    addr: IpAddress,
    prefix_len: u8,
}

/// The value of an [`IpNetwork`].
pub struct NetworkView {
    pub addr: IpAddress,
    pub prefix_len: u8,
}

impl View for IpNetwork {
    type V = NetworkView;

    closed spec fn view(&self) -> NetworkView {
        NetworkView { addr: self.addr, prefix_len: self.prefix_len }
    }
}

/// The prefix length fits the address family.
pub open spec fn network_wf(n: NetworkView) -> bool {
    match n.addr {
        IpAddress::V4(_) => n.prefix_len <= 32,
        IpAddress::V6(_) => n.prefix_len <= 128,
    }
}

pub open spec fn netmask_v4(p: u8) -> u32 {
    if p == 0 {
        0
    } else {
        u32::MAX << ((32 - p) as u32)
    }
}

pub open spec fn hostmask_v4(p: u8) -> u32 {
    if p >= 32 {
        0
    } else {
        u32::MAX >> (p as u32)
    }
}

pub open spec fn netmask_v6(p: u8) -> u128 {
    if p == 0 {
        0
    } else {
        u128::MAX << ((128 - p) as u32)
    }
}

pub open spec fn hostmask_v6(p: u8) -> u128 {
    if p >= 128 {
        0
    } else {
        u128::MAX >> (p as u32)
    }
}

/// `ipnet::IpNet::contains` for an address: same family, and the address
/// lies between the network address and the broadcast address.
pub open spec fn net_contains(n: NetworkView, a: IpAddress) -> bool {
    match (n.addr, a) {
        (IpAddress::V4(x), IpAddress::V4(y)) => (x & netmask_v4(n.prefix_len)) <= y && y <= (x
            | hostmask_v4(n.prefix_len)),
        (IpAddress::V6(x), IpAddress::V6(y)) => (x & netmask_v6(n.prefix_len)) <= y && y <= (x
            | hostmask_v6(n.prefix_len)),
        _ => false,
    }
}

/// The single-address network of an address (`IpNet::from(IpAddr)`).
pub open spec fn host_network(a: IpAddress) -> NetworkView {
    match a {
        IpAddress::V4(_) => NetworkView { addr: a, prefix_len: 32 },
        IpAddress::V6(_) => NetworkView { addr: a, prefix_len: 128 },
    }
}

pub open spec fn opt_network_view(n: Option<IpNetwork>) -> Option<NetworkView> {
    match n {
        Some(x) => Some(x@),
        None => None,
    }
}

/// What `"<addr>/<len>".parse::<ipnet::IpNet>()` gives for a text.
pub uninterp spec fn ipnet_parse(s: Seq<char>) -> Option<NetworkView>;

/// What `str::parse::<IpAddr>` gives for a text.
pub uninterp spec fn ip_addr_parse(s: Seq<char>) -> Option<IpAddress>;

/// `ipnet::IpNet::from_str`, its result read as plain integers. The
/// contract claims that the result is the named parse of the text, and
/// that its prefix length fits the family: ipnet's parser reads at most 32
/// (IPv4) or 128 (IPv6) and `Ipv4Net::new` / `Ipv6Net::new` refuse more.
#[verifier::external_body]
fn parse_ipnet(s: &str) -> (r: Option<IpNetwork>)
    ensures
        opt_network_view(r) == ipnet_parse(s@),
{
    match s.parse::<ipnet::IpNet>() {
        Ok(ipnet::IpNet::V4(n)) => Some(
            IpNetwork { addr: IpAddress::V4(u32::from(n.addr())), prefix_len: n.prefix_len() },
        ),
        Ok(ipnet::IpNet::V6(n)) => Some(
            IpNetwork { addr: IpAddress::V6(u128::from(n.addr())), prefix_len: n.prefix_len() },
        ),
        Err(_) => None,
    }
}

/// `core::net::IpAddr::from_str`, its result read as an integer.
#[verifier::external_body]
fn parse_ip_addr(s: &str) -> (r: Option<IpAddress>)
    ensures
        r == ip_addr_parse(s@),
{
    match s.parse::<core::net::IpAddr>() {
        Ok(core::net::IpAddr::V4(a)) => Some(IpAddress::V4(u32::from(a))),
        Ok(core::net::IpAddr::V6(a)) => Some(IpAddress::V6(u128::from(a))),
        Err(_) => None,
    }
}

impl IpAddress {
    /// Parse a textual IPv4 or IPv6 address.
    pub fn parse(s: &str) -> (r: Option<IpAddress>)
        ensures
            r == ip_addr_parse(s@),
    {
        parse_ip_addr(s)
    }
}

impl IpNetwork {
    #[verifier::type_invariant]
    spec fn inv(self) -> bool {
        network_wf(self@)
    }

    pub fn addr(&self) -> (a: IpAddress)
        ensures
            a == self@.addr,
    {
        self.addr
    }

    pub fn prefix_len(&self) -> (p: u8)
        ensures
            p == self@.prefix_len,
            network_wf(self@),
    {
        proof {
            use_type_invariant(self);
        }
        self.prefix_len
    }

    /// Parse a network in CIDR notation, `addr/len`.
    pub fn parse(s: &str) -> (r: Option<IpNetwork>)
        ensures
            opt_network_view(r) == ipnet_parse(s@),
    {
        parse_ipnet(s)
    }

    /// The network holding exactly one address.
    pub fn from_addr(a: IpAddress) -> (r: IpNetwork)
        ensures
            r@ == host_network(a),
    {
        match a {
            IpAddress::V4(_) => IpNetwork { addr: a, prefix_len: 32 },
            IpAddress::V6(_) => IpNetwork { addr: a, prefix_len: 128 },
        }
    }

    /// Whether the address lies in this network (see [`net_contains`]).
    pub fn contains(&self, a: IpAddress) -> (r: bool)
        ensures
            r == net_contains(self@, a),
            r == same_prefix(self@, a),
    {
        proof {
            use_type_invariant(self);
            law_network_is_its_prefix(self@, a);
        }
        let p = self.prefix_len;
        match (self.addr, a) {
            (IpAddress::V4(x), IpAddress::V4(y)) => {
                let net: u32 = if p == 0 {
                    0
                } else {
                    u32::MAX << ((32 - p) as u32)
                };
                let host: u32 = if p >= 32 {
                    0
                } else {
                    u32::MAX >> (p as u32)
                };
                (x & net) <= y && y <= (x | host)
            },
            (IpAddress::V6(x), IpAddress::V6(y)) => {
                let net: u128 = if p == 0 {
                    0
                } else {
                    u128::MAX << ((128 - p) as u32)
                };
                let host: u128 = if p >= 128 {
                    0
                } else {
                    u128::MAX >> (p as u32)
                };
                (x & net) <= y && y <= (x | host)
            },
            _ => false,
        }
    }
}

/// A network holds its own address and, when it is a single-address
/// network, no other address of that family.
pub proof fn law_host_network_holds_only_itself(a: IpAddress, b: IpAddress)
    ensures
        net_contains(host_network(a), a),
        net_contains(host_network(a), b) <==> a == b,
{
    match a {
        IpAddress::V4(x) => {
            assert(x & (u32::MAX << 0u32) == x && (x | 0u32) == x) by (bit_vector);
        },
        IpAddress::V6(x) => {
            assert(x & (u128::MAX << 0u32) == x && (x | 0u128) == x) by (bit_vector);
        },
    }
}

/// The zero-length prefix of a family holds every address of that family.
pub proof fn law_zero_prefix_holds_family(n: NetworkView, a: IpAddress)
    requires
        n.prefix_len == 0,
    ensures
        net_contains(n, a) <==> (n.addr is V4 && a is V4) || (n.addr is V6 && a is V6),
{
    match (n.addr, a) {
        (IpAddress::V4(x), IpAddress::V4(y)) => {
            assert((x & 0u32) <= y && y <= (x | (u32::MAX >> 0u32))) by (bit_vector);
        },
        (IpAddress::V6(x), IpAddress::V6(y)) => {
            assert((x & 0u128) <= y && y <= (x | (u128::MAX >> 0u32))) by (bit_vector);
        },
        _ => {},
    }
}

proof fn lemma_prefix_bits_v4(x: u32, y: u32, p: u8)
    requires
        0 < p <= 32,
    ensures
        ((x & netmask_v4(p)) <= y && y <= (x | hostmask_v4(p))) <==> (y >> ((32 - p) as u32)) == (x
            >> ((32 - p) as u32)),
{
    let s: u32 = (32 - p) as u32;
    if p == 32 {
        assert(((x & (u32::MAX << 0u32)) <= y && y <= (x | 0u32)) <==> (y >> 0u32) == (x >> 0u32))
            by (bit_vector);
    } else {
        let q: u32 = p as u32;
        assert(((x & (u32::MAX << s)) <= y && y <= (x | (u32::MAX >> q))) <==> (y >> s) == (x >> s))
            by (bit_vector)
            requires
                0 < s < 32,
                q == 32 - s,
        ;
    }
}

#[verifier::rlimit(100)]
proof fn lemma_prefix_bits_v6(x: u128, y: u128, p: u8)
    requires
        0 < p <= 128,
    ensures
        ((x & netmask_v6(p)) <= y && y <= (x | hostmask_v6(p))) <==> (y >> ((128 - p) as u32)) == (x
            >> ((128 - p) as u32)),
{
    let s: u32 = (128 - p) as u32;
    if p == 128 {
        assert(((x & (u128::MAX << 0u32)) <= y && y <= (x | 0u128)) <==> (y >> 0u32) == (x >> 0u32))
            by (bit_vector);
    } else {
        let q: u32 = p as u32;
        assert(((x & (u128::MAX << s)) <= y && y <= (x | (u128::MAX >> q))) <==> (y >> s) == (x >> s))
            by (bit_vector)
            requires
                0 < s < 128,
                q == 128 - s,
        ;
    }
}

/// Whether `a` has the same first `prefix_len` bits as the network's
/// address (and is of the same family).
pub open spec fn same_prefix(n: NetworkView, a: IpAddress) -> bool {
    match (n.addr, a) {
        (IpAddress::V4(x), IpAddress::V4(y)) => n.prefix_len == 0 || (y >> ((32 - n.prefix_len) as u32))
            == (x >> ((32 - n.prefix_len) as u32)),
        (IpAddress::V6(x), IpAddress::V6(y)) => n.prefix_len == 0 || (y >> ((128 - n.prefix_len) as u32))
            == (x >> ((128 - n.prefix_len) as u32)),
        _ => false,
    }
}

/// A network of prefix length `p` holds exactly the addresses of its family
/// whose first `p` bits are those of its address.
pub proof fn law_network_is_its_prefix(n: NetworkView, a: IpAddress)
    requires
        network_wf(n),
    ensures
        net_contains(n, a) <==> same_prefix(n, a),
{
    match (n.addr, a) {
        (IpAddress::V4(x), IpAddress::V4(y)) => {
            if n.prefix_len == 0 {
                law_zero_prefix_holds_family(n, a);
            } else {
                lemma_prefix_bits_v4(x, y, n.prefix_len);
            }
        },
        (IpAddress::V6(x), IpAddress::V6(y)) => {
            if n.prefix_len == 0 {
                law_zero_prefix_holds_family(n, a);
            } else {
                lemma_prefix_bits_v6(x, y, n.prefix_len);
            }
        },
        _ => {},
    }
}

} // verus!
