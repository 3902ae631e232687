use flyo::net::{IpAddress, IpNetwork};

#[test]
fn addresses_parse_to_their_integer_value() {
    assert_eq!(IpAddress::parse("10.5.5.5"), Some(IpAddress::V4(0x0a05_0505)));
    assert_eq!(IpAddress::parse("::1"), Some(IpAddress::V6(1)));
    assert_eq!(IpAddress::parse("10.5.5"), None);
    assert_eq!(IpAddress::parse("10.0.0.0/8"), None);
}

#[test]
fn networks_parse_and_contain() {
    let n = IpNetwork::parse("10.1.2.3/8").unwrap();
    assert_eq!(n.addr(), IpAddress::V4(0x0a01_0203));
    assert_eq!(n.prefix_len(), 8);
    assert!(n.contains(IpAddress::V4(0x0aff_ffff)));
    assert!(!n.contains(IpAddress::V4(0x0b00_0000)));
    assert!(!n.contains(IpAddress::V6(0x0a01_0203)));
    assert!(IpNetwork::parse("10.0.0.0").is_none());
    assert!(IpNetwork::parse("10.0.0.0/33").is_none());
    let all = IpNetwork::parse("0.0.0.0/0").unwrap();
    assert!(all.contains(IpAddress::V4(u32::MAX)));
    let host = IpNetwork::from_addr(IpAddress::V6(5));
    assert_eq!(host.prefix_len(), 128);
    assert!(host.contains(IpAddress::V6(5)));
    assert!(!host.contains(IpAddress::V6(4)));
}
