//! Routing decisions: where an outbound packet is sent, and whether an
//! inbound packet is delivered locally or relayed to another peer.
use vstd::prelude::*;
use vstd::arithmetic::power2::pow2;
use crate::endpoint::Endpoint;

verus! {

/// What a route leads to.
#[derive(Clone, Copy, Debug, PartialEq, Eq, Structural)]
pub enum Hop {
    /// The network is reached through the local virtual interface.
    Local,
    /// The network is reached through this peer.
    Peer(Endpoint),
}

/// An IPv4 route: packets whose destination lies in `net/prefix_len` go to `hop`.
#[derive(Clone, Copy, Debug, PartialEq, Eq, Structural)]
pub struct Route {
    pub net: u32,
    pub prefix_len: u8,
    pub hop: Hop,
}

/// What becomes of a packet that arrived over the transport.
#[derive(Clone, Copy, Debug, PartialEq, Eq, Structural)]
pub enum ForwardDecision {
    /// Write the payload to the local interface.
    Deliver,
    /// Forward the payload towards this peer.
    Relay(Endpoint),
}

/// Why no decision could be made.
#[derive(Clone, Copy, Debug, PartialEq, Eq, Structural)]
pub enum RouteError {
    NoRoute,
}

/// The routing oracle: a fixed destination, or a longest-prefix-match table.
#[derive(Debug)]
pub enum RoutingOracle {
    /// Every outbound packet goes to this endpoint; every inbound one is delivered.
    Static(Endpoint),
    /// Routes looked up by the IPv4 destination address of the packet.
    Table(Vec<Route>),
}

/// Whether the bytes start with an IPv4 header.
pub open spec fn is_ipv4(p: Seq<u8>) -> bool {
    p.len() >= 20 && p[0] / 16 == 4
}

/// The destination address of an IPv4 header, as a number.
pub open spec fn ipv4_dst(p: Seq<u8>) -> int {
    p[16] as int * 0x100_0000 + p[17] as int * 0x1_0000 + p[18] as int * 0x100 + p[19] as int
}

/// Whether `addr` lies in the network of the route.
pub open spec fn route_matches(r: Route, addr: int) -> bool {
    r.prefix_len <= 32 && addr / pow2((32 - r.prefix_len) as nat) as int == r.net as int
        / pow2((32 - r.prefix_len) as nat) as int
}

/// The route chosen among the first `n`: the longest matching prefix, the
/// earliest one among equally long prefixes.
pub open spec fn best_in(rs: Seq<Route>, addr: int, n: nat) -> Option<int>
    decreases n,
{
    if n == 0 {
        None
    } else {
        let prev = best_in(rs, addr, (n - 1) as nat);
        let i = n - 1;
        if route_matches(rs[i], addr) && (prev is None || rs[prev->0].prefix_len
            < rs[i].prefix_len) {
            Some(i)
        } else {
            prev
        }
    }
}

/// The route chosen in a table for a destination address.
pub open spec fn best_route(rs: Seq<Route>, addr: int) -> Option<int> {
    best_in(rs, addr, rs.len())
}

/// The table lookup of a packet: the hop of its chosen route.
pub open spec fn table_hop(rs: Seq<Route>, p: Seq<u8>) -> Option<Hop> {
    if !is_ipv4(p) {
        None
    } else {
        match best_route(rs, ipv4_dst(p)) {
            Some(i) => Some(rs[i].hop),
            None => None,
        }
    }
}

impl RoutingOracle {
    /// The destination of a packet read from the local interface.
    pub open spec fn outbound(&self, p: Seq<u8>) -> Result<Endpoint, RouteError> {
        match self {
            RoutingOracle::Static(e) => Ok(*e),
            RoutingOracle::Table(rs) => match table_hop(rs@, p) {
                Some(Hop::Peer(e)) => Ok(e),
                _ => Err(RouteError::NoRoute),
            },
        }
    }

    /// The decision on a packet read from the transport.
    pub open spec fn inbound(&self, p: Seq<u8>) -> Result<ForwardDecision, RouteError> {
        match self {
            RoutingOracle::Static(_) => Ok(ForwardDecision::Deliver),
            RoutingOracle::Table(rs) => match table_hop(rs@, p) {
                Some(Hop::Local) => Ok(ForwardDecision::Deliver),
                Some(Hop::Peer(e)) => Ok(ForwardDecision::Relay(e)),
                None => Err(RouteError::NoRoute),
            },
        }
    }

    /// Resolves the destination of a packet read from the local interface.
    pub fn resolve_outbound(&self, packet: &[u8]) -> (r: Result<Endpoint, RouteError>)
        ensures
            r == self.outbound(packet@),
    {
        match self {
            RoutingOracle::Static(e) => Ok(*e),
            RoutingOracle::Table(rs) => match lookup_hop(rs, packet) {
                Some(Hop::Peer(e)) => Ok(e),
                _ => Err(RouteError::NoRoute),
            },
        }
    }

    /// Resolves what becomes of a packet read from the transport.
    pub fn resolve_inbound(&self, packet: &[u8]) -> (r: Result<ForwardDecision, RouteError>)
        ensures
            r == self.inbound(packet@),
    {
        match self {
            RoutingOracle::Static(_) => Ok(ForwardDecision::Deliver),
            RoutingOracle::Table(rs) => match lookup_hop(rs, packet) {
                Some(Hop::Local) => Ok(ForwardDecision::Deliver),
                Some(Hop::Peer(e)) => Ok(ForwardDecision::Relay(e)),
                None => Err(RouteError::NoRoute),
            },
        }
    }
}

/// The destination address of an IPv4 header.
fn dst_addr(p: &[u8]) -> (r: u32)
    requires
        p@.len() >= 20,
    ensures
        r as int == ipv4_dst(p@),
{
    let a = p[16] as u32;
    let b = p[17] as u32;
    let c = p[18] as u32;
    let d = p[19] as u32;
    a * 0x100_0000 + b * 0x1_0000 + c * 0x100 + d
}

/// The size of the host part of a prefix, as a divisor.
pub(crate) fn host_span(prefix_len: u8) -> (r: u64)
    requires
        prefix_len <= 32,
    ensures
        r as int == pow2((32 - prefix_len) as nat),
        r > 0,
{
    let n: u8 = 32 - prefix_len;
    let mut d: u64 = 1;
    let mut k: u8 = 0;
    proof {
        vstd::arithmetic::power2::lemma2_to64();
    }
    while k < n
        invariant
            k <= n <= 32,
            d as int == pow2(k as nat),
        decreases n - k,
    {
        proof {
            vstd::arithmetic::power2::lemma_pow2_unfold((k + 1) as nat);
            vstd::arithmetic::power2::lemma_pow2_strictly_increases(k as nat, 32);
            vstd::arithmetic::power2::lemma2_to64();
        }
        d = d * 2;
        k = k + 1;
    }
    proof {
        vstd::arithmetic::power2::lemma_pow2_pos(k as nat);
    }
    d
}

/// Whether `addr` lies in the network of `r`.
fn matches_route(r: &Route, addr: u32) -> (b: bool)
    ensures
        b == route_matches(*r, addr as int),
{
    if r.prefix_len > 32 {
        return false;
    }
    let d = host_span(r.prefix_len);
    (addr as u64) / d == (r.net as u64) / d
}

/// Looks a packet up in a route table.
fn lookup_hop(rs: &Vec<Route>, p: &[u8]) -> (r: Option<Hop>)
    ensures
        r == table_hop(rs@, p@),
{
    if p.len() < 20 || p[0] / 16 != 4 {
        return None;
    }
    let addr = dst_addr(p);
    let mut best: Option<usize> = None;
    let mut i: usize = 0;
    while i < rs.len()
        invariant
            i <= rs@.len(),
            best_in(rs@, addr as int, i as nat) == match best {
                Some(b) => Some(b as int),
                None => None::<int>,
            },
            forall|b: usize| best == Some(b) ==> b < i,
        decreases rs.len() - i,
    {
        let m = matches_route(&rs[i], addr);
        if m {
            match best {
                None => {
                    best = Some(i);
                },
                Some(b) => {
                    if rs[b].prefix_len < rs[i].prefix_len {
                        best = Some(i);
                    }
                },
            }
        }
        i = i + 1;
    }
    match best {
        Some(b) => Some(rs[b].hop),
        None => None,
    }
}

/// The chosen route matches the address, no matching route has a longer
/// prefix, and no earlier matching route has one as long; where nothing is
/// chosen, no route matches.
pub proof fn lemma_best_route_is_longest(rs: Seq<Route>, addr: int, n: nat)
    requires
        n <= rs.len(),
    ensures
        match best_in(rs, addr, n) {
            Some(i) => 0 <= i < n && route_matches(rs[i], addr) && (forall|j: int|
                0 <= j < n && route_matches(rs[j], addr) ==> rs[j].prefix_len
                    <= rs[i].prefix_len) && (forall|j: int|
                0 <= j < i && route_matches(rs[j], addr) ==> rs[j].prefix_len
                    < rs[i].prefix_len),
            None => forall|j: int| 0 <= j < n ==> !route_matches(rs[j], addr),
        },
    decreases n,
{
    if n > 0 {
        lemma_best_route_is_longest(rs, addr, (n - 1) as nat);
    }
}

/// The routing decisions depend on the packet bytes and the oracle alone:
/// the same bytes and the same route state give the same decisions.
pub proof fn lemma_resolution_deterministic(
    oa: RoutingOracle,
    ob: RoutingOracle,
    pa: Seq<u8>,
    pb: Seq<u8>,
)
    requires
        pa == pb,
        oa == ob,
    ensures
        oa.outbound(pa) == ob.outbound(pb),
        oa.inbound(pa) == ob.inbound(pb),
{
}

/// The bootstrap route for a packet read from the local interface: the
/// fixed peer 10.211.55.5:55001.
pub fn route_from_local(buf: &[u8]) -> (r: Endpoint)
    ensures
        r == Endpoint::v4_spec(0x0ad3_3705, 55001),
{
    Endpoint::v4(0x0ad3_3705, 55001)
}

/// The bootstrap decision for a packet read from the transport: no relay
/// target, so the packet is delivered locally.
pub fn route_from_remote(buf: &[u8]) -> (r: Option<Endpoint>)
    ensures
        r is None,
{
    None
}

} // verus!
