//! TLS material for the proxy: a PEM certificate chain and key read from
//! disk, or a self-signed certificate generated at startup.
use vstd::prelude::*;

use crate::net::{ip_addr_parse, IpAddress};

verus! {

/// Encoding of a private key.
#[derive(Clone, Copy, Debug, PartialEq, Eq, Structural)]
pub enum KeyFormat {
    Pkcs1,
    Sec1,
    Pkcs8,
}

/// A DER-encoded private key.
#[derive(Clone, Debug)]
pub struct PrivateKey {
    pub format: KeyFormat,
    pub der: Vec<u8>,
}

/// Why TLS material could not be had.
#[derive(Clone, Copy, Debug, PartialEq, Eq, Structural)]
pub enum TlsError {
    /// The certificate file is not valid PEM.
    CertParse,
    /// The certificate file holds no certificate.
    NoCertificates,
    /// The key file is not valid PEM.
    KeyParse,
    /// The key file holds no private key.
    NoPrivateKey,
    /// No self-signed certificate could be generated.
    Generate,
}

/// The DER certificates `rustls_pemfile::certs` reads from a PEM text,
/// `None` when it reports an error.
pub uninterp spec fn pem_certificates(pem: Seq<u8>) -> Option<Seq<Seq<u8>>>;

/// What `rustls_pemfile::private_key` reads from a PEM text: `None` on an
/// error, `Some(None)` when the text holds no key, else the first key.
pub uninterp spec fn pem_private_key(pem: Seq<u8>) -> Option<Option<(KeyFormat, Seq<u8>)>>;

pub open spec fn opt_certs_view(r: Option<Vec<Vec<u8>>>) -> Option<Seq<Seq<u8>>> {
    match r {
        Some(v) => Some(v.deep_view()),
        None => None,
    }
}

pub open spec fn key_view(k: PrivateKey) -> (KeyFormat, Seq<u8>) {
    (k.format, k.der@)
}

pub open spec fn opt_key_view(r: Option<Option<PrivateKey>>) -> Option<Option<(KeyFormat, Seq<u8>)>> {
    match r {
        Some(Some(k)) => Some(Some(key_view(k))),
        Some(None) => Some(None),
        None => None,
    }
}

/// `rustls_pemfile::certs` over the whole text, the certificates as bytes;
/// the result is the named one.
#[verifier::external_body]
fn read_pem_certs(pem: &[u8]) -> (r: Option<Vec<Vec<u8>>>)
    ensures
        opt_certs_view(r) == pem_certificates(pem@),
{
    let mut rd: &[u8] = pem;
    match rustls_pemfile::certs(&mut rd).collect::<Result<Vec<_>, _>>() {
        Ok(certs) => Some(certs.iter().map(|c| c.as_ref().to_vec()).collect()),
        Err(_) => None,
    }
}

/// `rustls_pemfile::private_key`, the key as format and bytes; the result
/// is the named one (a key kind this crate does not know counts as an error).
#[verifier::external_body]
fn read_pem_key(pem: &[u8]) -> (r: Option<Option<PrivateKey>>)
    ensures
        opt_key_view(r) == pem_private_key(pem@),
{
    let mut rd: &[u8] = pem;
    match rustls_pemfile::private_key(&mut rd) {
        Ok(Some(rustls::pki_types::PrivateKeyDer::Pkcs1(k))) => Some(
            Some(PrivateKey { format: KeyFormat::Pkcs1, der: k.secret_pkcs1_der().to_vec() }),
        ),
        Ok(Some(rustls::pki_types::PrivateKeyDer::Sec1(k))) => Some(
            Some(PrivateKey { format: KeyFormat::Sec1, der: k.secret_sec1_der().to_vec() }),
        ),
        Ok(Some(rustls::pki_types::PrivateKeyDer::Pkcs8(k))) => Some(
            Some(PrivateKey { format: KeyFormat::Pkcs8, der: k.secret_pkcs8_der().to_vec() }),
        ),
        Ok(Some(_)) => None,
        Ok(None) => Some(None),
        Err(_) => None,
    }
}

/// A subject alternative name a certificate is issued for.
#[derive(Clone, Debug)]
pub enum SanName {
    Dns(String),
    Ip(IpAddress),
    /// A kind of name rcgen does not make from a plain name.
    Other,
}

pub enum SanNameView {
    Dns(Seq<char>),
    Ip(IpAddress),
    Other,
}

impl View for SanName {
    type V = SanNameView;

    open spec fn view(&self) -> SanNameView {
        match self {
            SanName::Dns(s) => SanNameView::Dns(s@),
            SanName::Ip(a) => SanNameView::Ip(*a),
            SanName::Other => SanNameView::Other,
        }
    }
}

/// The name a certificate is issued for when asked for `name`: an IP
/// address when the text parses as one, else a DNS name.
pub open spec fn san_for(name: Seq<char>) -> SanNameView {
    match ip_addr_parse(name) {
        Some(a) => SanNameView::Ip(a),
        None => SanNameView::Dns(name),
    }
}

/// Whether `sans` are the names issued for `names`, one for one.
pub open spec fn issued_for(sans: Seq<SanName>, names: Seq<String>) -> bool {
    sans.len() == names.len() && forall|i: int| 0 <= i < names.len() ==> (#[trigger] sans[i])@
        == san_for(names[i]@)
}

/// `rcgen::generate_simple_self_signed`: a certificate and its PKCS#8 key,
/// both DER, and the subject alternative names the certificate was issued
/// for. rcgen's `CertificateParams::new` turns each name into an IP address
/// when `IpAddr::from_str` reads it, else into a DNS name, and the issued
/// certificate keeps those parameters; that is what the contract claims.
/// The key is random, so nothing is stated of the bytes.
#[verifier::external_body]
fn generate_self_signed(names: Vec<String>) -> (r: Option<(Vec<u8>, Vec<u8>, Vec<SanName>)>)
    ensures
        r matches Some((_, _, sans)) ==> issued_for(sans@, names@),
{
    let c = rcgen::generate_simple_self_signed(names).ok()?;
    let sans = c.cert.params().subject_alt_names.iter().map(|n| match n {
        rcgen::SanType::DnsName(d) => SanName::Dns(d.as_str().to_string()),
        rcgen::SanType::IpAddress(core::net::IpAddr::V4(a)) => SanName::Ip(IpAddress::V4(u32::from(*a))),
        rcgen::SanType::IpAddress(core::net::IpAddr::V6(a)) => SanName::Ip(IpAddress::V6(u128::from(*a))),
        _ => SanName::Other,
    });
    Some((c.cert.der().to_vec(), c.key_pair.serialize_der(), sans.collect()))
}

/// The certificate chain of a PEM text: an error when it does not parse or
/// holds no certificate.
pub open spec fn chain_of(pem: Seq<u8>) -> Result<Seq<Seq<u8>>, TlsError> {
    match pem_certificates(pem) {
        None => Err(TlsError::CertParse),
        Some(c) => if c.len() == 0 {
            Err(TlsError::NoCertificates)
        } else {
            Ok(c)
        },
    }
}

/// The private key of a PEM text: an error when it does not parse or holds
/// no key.
pub open spec fn key_of(pem: Seq<u8>) -> Result<(KeyFormat, Seq<u8>), TlsError> {
    match pem_private_key(pem) {
        None => Err(TlsError::KeyParse),
        Some(None) => Err(TlsError::NoPrivateKey),
        Some(Some(k)) => Ok(k),
    }
}

/// Read the certificate chain of a PEM certificate file (see [`chain_of`]).
pub fn certs_from_pem(pem: &[u8]) -> (r: Result<Vec<Vec<u8>>, TlsError>)
    ensures
        match r {
            Ok(c) => chain_of(pem@) == Ok::<Seq<Seq<u8>>, TlsError>(c.deep_view()),
            Err(e) => chain_of(pem@) == Err::<Seq<Seq<u8>>, TlsError>(e),
        },
{
    match read_pem_certs(pem) {
        None => Err(TlsError::CertParse),
        Some(c) => if c.len() == 0 {
            Err(TlsError::NoCertificates)
        } else {
            Ok(c)
        },
    }
}

/// Read the private key of a PEM key file (see [`key_of`]).
pub fn key_from_pem(pem: &[u8]) -> (r: Result<PrivateKey, TlsError>)
    ensures
        match r {
            Ok(k) => key_of(pem@) == Ok::<(KeyFormat, Seq<u8>), TlsError>(key_view(k)),
            Err(e) => key_of(pem@) == Err::<(KeyFormat, Seq<u8>), TlsError>(e),
        },
{
    match read_pem_key(pem) {
        None => Err(TlsError::KeyParse),
        Some(None) => Err(TlsError::NoPrivateKey),
        Some(Some(k)) => Ok(k),
    }
}

/// A self-signed certificate for the names: a chain of one certificate
/// and its PKCS#8 key, with the names it was issued for (see
/// [`issued_for`]).
pub fn self_signed_material(names: &Vec<String>) -> (r: Result<(Vec<Vec<u8>>, PrivateKey, Vec<SanName>), TlsError>)
    ensures
        r matches Ok((c, k, sans)) ==> c@.len() == 1 && k.format == KeyFormat::Pkcs8 && issued_for(
            sans@,
            names@,
        ),
        r matches Err(e) ==> e == TlsError::Generate,
{
    let given = names.clone();
    proof {
        assert(given@ == names@);
    }
    match generate_self_signed(given) {
        Some((cert, key, sans)) => {
            let mut chain: Vec<Vec<u8>> = Vec::new();
            chain.push(cert);
            Ok((chain, PrivateKey { format: KeyFormat::Pkcs8, der: key }, sans))
        },
        None => Err(TlsError::Generate),
    }
}

} // verus!
