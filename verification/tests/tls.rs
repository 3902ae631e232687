use flyo::net::IpAddress;
use flyo::tls::{certs_from_pem, key_from_pem, self_signed_material, KeyFormat, SanName, TlsError};

#[test]
fn self_signed_certificate_is_issued_for_the_names() {
    let names = vec!["localhost".to_string(), "127.0.0.1".to_string()];
    let (chain, key, issued) = self_signed_material(&names).unwrap();
    assert_eq!(chain.len(), 1);
    assert!(!chain[0].is_empty());
    assert_eq!(key.format, KeyFormat::Pkcs8);
    assert!(!key.der.is_empty());
    assert_eq!(issued.len(), 2);
    assert!(matches!(&issued[0], SanName::Dns(n) if n == "localhost"));
    assert!(matches!(issued[1], SanName::Ip(IpAddress::V4(0x7f00_0001))));
}

#[test]
fn empty_pem_texts_hold_nothing() {
    assert_eq!(certs_from_pem(b"").unwrap_err(), TlsError::NoCertificates);
    assert_eq!(key_from_pem(b"").unwrap_err(), TlsError::NoPrivateKey);
    assert_eq!(
        certs_from_pem(b"-----BEGIN CERTIFICATE-----\n!!!\n-----END CERTIFICATE-----\n").unwrap_err(),
        TlsError::CertParse
    );
}
