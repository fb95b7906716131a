//! Configuration data for the listeners.

use vstd::prelude::*;

verus! {

/// How the TLS certificate is obtained: from files, self-signed, or from
/// an ACME directory.
#[derive(PartialEq, Eq, Structural, Clone, Copy, Debug)]
pub enum CertMode {
    Manual,
    LetsEncrypt,
    SelfSigned,
}

/// The plain HTTP listener.
#[derive(Clone, Debug)]
pub struct HttpConfig {
    pub port: u16,
}

/// The TLS listener.
#[derive(Clone, Debug)]
pub struct HttpsConfig {
    pub port: u16,
    pub domain: String,
    pub cert_mode: CertMode,
    pub letsencrypt_contact: Option<String>,
    pub letsencrypt_prod: bool,
}

/// The reply to an accepted publish request.
#[derive(Clone, Copy, Debug)]
pub struct PublishResponse {
    pub published: bool,
    pub ttl: u16,
}

} // verus!
