//! Transport addresses of tunnel peers.
use vstd::prelude::*;

verus! {

/// A transport address: an IP address and a port. IPv4 and IPv6 are
/// distinct families; an IPv4 address occupies the low 32 bits of `ip`.
#[derive(Clone, Copy, Debug, PartialEq, Eq, Structural, Hash)]
pub struct Endpoint {
    pub is_v6: bool,
    pub ip: u128,
    pub port: u16,
}

/// The key under which an endpoint is filed: family (4 or 6), address, port.
pub type EndpointKey = (u8, u128, u16);

impl Endpoint {
    pub open spec fn v4_spec(ip: u32, port: u16) -> Endpoint {
        Endpoint { is_v6: false, ip: ip as u128, port }
    }

    /// An IPv4 endpoint.
    pub fn v4(ip: u32, port: u16) -> (r: Endpoint)
        ensures
            r == Endpoint::v4_spec(ip, port),
    {
        Endpoint { is_v6: false, ip: ip as u128, port }
    }

    /// An IPv6 endpoint.
    pub fn v6(ip: u128, port: u16) -> (r: Endpoint)
        ensures
            r == (Endpoint { is_v6: true, ip, port }),
    {
        Endpoint { is_v6: true, ip, port }
    }

    pub open spec fn key_of(self) -> EndpointKey {
        (if self.is_v6 { 6u8 } else { 4u8 }, self.ip, self.port)
    }

    /// The cache key of this endpoint.
    pub fn key(&self) -> (r: EndpointKey)
        ensures
            r == self.key_of(),
    {
        (if self.is_v6 { 6u8 } else { 4u8 }, self.ip, self.port)
    }
}

} // verus!
