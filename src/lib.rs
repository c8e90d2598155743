//! Data-plane core of a user-space IP tunnel: routing decisions, the
//! per-worker cache of outbound sockets, the per-packet decisions of a
//! worker, and the parsing of its startup options.
use vstd::prelude::*;

pub mod cache;
pub mod config;
pub mod endpoint;
pub mod routing;
pub mod worker;

pub use cache::SocketCache;
pub use config::{
    cidr_to_netmask, parse_ipv4, parse_mtu, split_ip_cidr, split_ip_port, tun_mode_default,
    tun_name_default, Command, Config, ParseError,
};
pub use endpoint::Endpoint;
pub use routing::{
    route_from_local, route_from_remote, ForwardDecision, Hop, Route, RouteError, RoutingOracle,
};
pub use worker::{on_local_packet, on_remote_packet, LocalAction, RemoteAction};


verus! {

/// Sum of two sizes.
pub fn add(left: usize, right: usize) -> (r: usize)
    requires
        left + right <= usize::MAX,
    ensures
        r == left + right,
{
    left + right
}

} // verus!
