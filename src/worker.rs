//! The decisions a worker takes on each packet. The worker's loop performs
//! them: it sends, creates sockets, writes to the interface and relays.
use vstd::prelude::*;
use crate::cache::{looked_up, SocketCache};
use crate::endpoint::Endpoint;
use crate::routing::{ForwardDecision, RouteError, RoutingOracle};

verus! {

/// What to do with a packet read from the local interface.
#[derive(Clone, Copy, Debug, PartialEq, Eq, Structural)]
pub enum LocalAction {
    /// No route: drop the packet.
    Drop,
    /// Send the packet, unchanged, over the cached socket with this id,
    /// which is connected to `to`.
    Send { socket: u64, to: Endpoint },
    /// No socket for `to` is cached: create one connected to it, file it
    /// with `SocketCache::file_new`, then send the packet, unchanged, over it.
    Connect(Endpoint),
}

/// What to do with a datagram read from the transport.
#[derive(Clone, Copy, Debug, PartialEq, Eq, Structural)]
pub enum RemoteAction {
    /// No route: drop the payload.
    Drop,
    /// Write the payload, unchanged, to the local interface queue.
    Deliver,
    /// Hand the payload to the relay hook with this endpoint; nothing is
    /// written to the local interface.
    Relay(Endpoint),
}

/// Decides on a packet read from the local interface: resolve its
/// destination, then look up the socket for it. Without a route the cache
/// is left untouched.
pub fn on_local_packet(oracle: &RoutingOracle, cache: &mut SocketCache, packet: &[u8]) -> (r: LocalAction)
    requires
        old(cache).wf(),
    ensures
        final(cache).wf(),
        final(cache).capacity() == old(cache).capacity(),
        final(cache).expires() == old(cache).expires(),
        final(cache).next_id() == old(cache).next_id(),
        match oracle.outbound(packet@) {
            Err(_) => r == LocalAction::Drop && *final(cache) == *old(cache),
            Ok(e) => {
                &&& r !is Drop
                &&& r matches LocalAction::Send { to, .. } ==> to == e
                &&& r matches LocalAction::Connect(to) ==> to == e
                &&& exists|j: int|
                    0 <= j <= old(cache).entries().len() && (!old(cache).expires() ==> j == 0)
                        && looked_up(
                        #[trigger] old(cache).entries().skip(j),
                        e.key_of(),
                        match r {
                            LocalAction::Send { socket, .. } => Some(socket),
                            _ => None,
                        },
                        final(cache).entries(),
                    )
            },
        },
{
    match oracle.resolve_outbound(packet) {
        Err(_) => LocalAction::Drop,
        Ok(e) => match cache.lookup(&e) {
            Some(id) => LocalAction::Send { socket: id, to: e },
            None => LocalAction::Connect(e),
        },
    }
}

/// Decides on a datagram read from the transport.
pub fn on_remote_packet(oracle: &RoutingOracle, packet: &[u8]) -> (r: RemoteAction)
    ensures
        r == match oracle.inbound(packet@) {
            Err(RouteError::NoRoute) => RemoteAction::Drop,
            Ok(ForwardDecision::Deliver) => RemoteAction::Deliver,
            Ok(ForwardDecision::Relay(e)) => RemoteAction::Relay(e),
        },
{
    match oracle.resolve_inbound(packet) {
        Err(RouteError::NoRoute) => RemoteAction::Drop,
        Ok(ForwardDecision::Deliver) => RemoteAction::Deliver,
        Ok(ForwardDecision::Relay(e)) => RemoteAction::Relay(e),
    }
}

} // verus!
