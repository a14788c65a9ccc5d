//! A network endpoint's configuration: its socket address, HTTP/2 and TLS, and the URL that
//! describes it.
use vstd::prelude::*;
use crate::text::{owned, push_str};

verus! {

#[derive(Debug, Clone, Copy, PartialEq, Eq, Structural)]
pub enum TlsMode {
    Disabled,
    Required,
}

#[derive(Debug, Clone, Copy, PartialEq, Eq, Structural)]
pub enum NetworkError {
    InvalidAddress,
    InvalidTls,
}

/// An endpoint at a parsed socket address, kept as its written form and its port.
#[derive(Debug, Clone, PartialEq, Eq)]
pub struct NetworkEndpoint {
    pub address: String,
    pub port: u16,
    pub http2: bool,
    pub tls: TlsMode,
}

pub open spec fn scheme_of(tls: TlsMode) -> Seq<char> {
    match tls {
        TlsMode::Disabled => "http"@,
        TlsMode::Required => "https"@,
    }
}

/// `scheme://address`, with `?http2=1` when HTTP/2 is on.
pub open spec fn description(e: NetworkEndpoint) -> Seq<char> {
    scheme_of(e.tls) + "://"@ + e.address@ + if e.http2 {
        "?http2=1"@
    } else {
        Seq::empty()
    }
}

impl NetworkEndpoint {
    /// A plain-HTTP/1 endpoint at the socket address written `address`, on `port`.
    pub fn from_address(address: &str, port: u16) -> (e: Self)
        ensures
            e.address@ == address@,
            e.port == port,
            !e.http2,
            e.tls == TlsMode::Disabled,
    {
        NetworkEndpoint { address: owned(address), port, http2: false, tls: TlsMode::Disabled }
    }

    pub fn http2(self, enabled: bool) -> (e: Self)
        ensures
            e == (NetworkEndpoint { http2: enabled, ..self }),
    {
        NetworkEndpoint { http2: enabled, ..self }
    }

    /// Sets the TLS mode; TLS needs a definite port.
    pub fn tls(self, mode: TlsMode) -> (r: Result<Self, NetworkError>)
        ensures
            mode == TlsMode::Required && self.port == 0 ==> r == Err::<Self, NetworkError>(NetworkError::InvalidTls),
            !(mode == TlsMode::Required && self.port == 0) ==> r == Ok::<Self, NetworkError>(
                NetworkEndpoint { tls: mode, ..self },
            ),
    {
        if mode == TlsMode::Required && self.port == 0 {
            return Err(NetworkError::InvalidTls);
        }
        Ok(NetworkEndpoint { tls: mode, ..self })
    }

    pub fn scheme(&self) -> (r: &'static str)
        ensures
            r@ == scheme_of(self.tls),
    {
        match self.tls {
            TlsMode::Disabled => "http",
            TlsMode::Required => "https",
        }
    }

    pub fn describe(&self) -> (r: String)
        ensures
            r@ == description(*self),
    {
        let mut s = owned(self.scheme());
        push_str(&mut s, "://");
        push_str(&mut s, self.address.as_str());
        if self.http2 {
            push_str(&mut s, "?http2=1");
        }
        assert(s@ =~= description(*self));
        s
    }
}

} // verus!
