//! What the node does on each event of the network.
use crate::registry::{addr_seq, registered, response_of, without_peer, DiscoveryRequest, DiscoveryResponse, RoomRegistry};
use vstd::prelude::*;

verus! {

/// An event of the network, as far as the registry is concerned.
#[derive(Clone, Debug)]
pub enum RelayEvent {
    /// A peer announced itself and waits for an answer.
    Discovery(DiscoveryRequest),
    /// The connection to the peer with this identifier closed.
    ConnectionClosed(String),
    /// Anything else.
    Other,
}

/// What is to be done after an event.
#[derive(Clone, Debug)]
pub enum RelayAction {
    /// Send this answer to the peer that announced itself.
    Respond(DiscoveryResponse),
    /// Nothing to send.
    Nothing,
}

/// Applies one event, read at the time `now`, to the registry.
///
/// An announcement is registered and answered with the other members of its
/// room; a closed connection removes the peer from every room; any other
/// event leaves the registry as it is.
pub fn on_event(registry: &mut RoomRegistry, event: RelayEvent, now: u64) -> (action: RelayAction)
    requires
        old(registry).wf(),
    ensures
        final(registry).wf(),
        match event {
            RelayEvent::Discovery(req) => {
                &&& final(registry)@ == registered(old(registry)@, req.room@, req.peer_id@, addr_seq(req.addrs@), now)
                &&& action matches RelayAction::Respond(r) && r.distinct() && r@ == response_of(
                    old(registry)@,
                    req.room@,
                    req.peer_id@,
                    addr_seq(req.addrs@),
                    now,
                )
            },
            RelayEvent::ConnectionClosed(peer_id) => {
                &&& final(registry)@ == without_peer(old(registry)@, peer_id@)
                &&& action is Nothing
            },
            RelayEvent::Other => {
                &&& *final(registry) == *old(registry)
                &&& action is Nothing
            },
        },
{
    match event {
        RelayEvent::Discovery(req) => RelayAction::Respond(crate::registry::handle_discovery(registry, req, now)),
        RelayEvent::ConnectionClosed(peer_id) => {
            crate::registry::remove_peer(registry, &peer_id);
            RelayAction::Nothing
        },
        RelayEvent::Other => RelayAction::Nothing,
    }
}

} // verus!
