//! A relay's per-frame decisions and its configuration defaults.
//!
//! The application runs the listener and the connections; for every
//! frame a connection reads, [`handle_frame`] says what to do with it.

use vstd::prelude::*;

use crate::crypto::keys::KeyPair;
use crate::forwarding::{
    peel_onion_layer, spec_peel, OnionError, OnionPayload, OnionPayloadView,
};

verus! {

#[derive(Debug)]
pub enum RelayError {
    Config(String),
    Io(std::io::Error),
    Onion(OnionError),
}

/// How many connections a relay configuration allows when it names no
/// limit.
pub fn default_max_connections() -> (r: usize)
    ensures
        r == 256,
{
    256
}

/// Whether a relay that has `active` inbound connections open accepts
/// one more, under its cap of `max_connections` concurrent inbound
/// connections. A refused connection is closed at once and counted in
/// the relay's metrics.
pub fn admit_connection(active: usize, max_connections: usize) -> (r: bool)
    ensures
        r == (active < max_connections),
{
    active < max_connections
}

/// How far above a relay's main port its mailbox listener runs.
pub const MAILBOX_PORT_OFFSET: u16 = 1000;

/// The port of the mailbox listener that belongs to a relay listening on
/// `listen_port`.
pub fn mailbox_port(listen_port: u16) -> (r: u16)
    requires
        listen_port + MAILBOX_PORT_OFFSET <= u16::MAX,
    ensures
        r == listen_port + MAILBOX_PORT_OFFSET,
{
    listen_port + MAILBOX_PORT_OFFSET
}

/// What a relay does with one frame read from a connection.
pub enum RelayAction {
    /// Send `body` on to the relay at `next_hop`.
    Forward { next_hop: String, body: Vec<u8> },
    /// This relay is the exit: hand `body` to the local mailbox.
    Deliver { body: Vec<u8> },
    /// The frame could not be peeled: drop it and count a failure.
    Drop(OnionError),
}

/// The action for a frame: peel it with the relay's key pair; forward
/// or deliver what it carries, or drop it when peeling fails.
pub fn handle_frame(keypair: &KeyPair, frame: &[u8]) -> (r: RelayAction)
    ensures
        match spec_peel(keypair.secret(), frame@) {
            Ok(OnionPayloadView::Forward { next_hop, body }) => r matches RelayAction::Forward {
                next_hop: h,
                body: b,
            } && h@ == next_hop && b@ == body,
            Ok(OnionPayloadView::Deliver { body }) => r matches RelayAction::Deliver { body: b }
                && b@ == body,
            Err(e) => r == RelayAction::Drop(e),
        },
{
    match peel_onion_layer(keypair, frame) {
        Ok(OnionPayload::Forward { next_hop, body }) => RelayAction::Forward { next_hop, body },
        Ok(OnionPayload::Deliver { body }) => RelayAction::Deliver { body },
        Err(e) => RelayAction::Drop(e),
    }
}

} // verus!
