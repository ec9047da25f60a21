//! The sending side: fragmentation, end-to-end encryption, path
//! selection and circuit construction, one cell at a time.
//!
//! The application fragments a message, asks [`VeilClient::prepare_cell`]
//! for each cell in turn, and writes each prepared onion to its first
//! hop before preparing the next one.

use vstd::prelude::*;
use std::sync::Arc;
use rand::rngs::OsRng;

use crate::cell::{Cell, CellView};
use crate::circuit::{build_circuit, is_circuit, layer_plaintext_len, CircuitError};
use crate::crypto::encryption::{encrypt_cell, spec_encrypted_cell, NONCE_SIZE};
use crate::envelope::{spec_wrap, wrap, ENVELOPE_SIZE};
use crate::error::VeilError;
use crate::forwarding::OnionError;
use crate::path_selection::{
    is_index_permutation, perm_views, select_diverse_path, spec_diverse_pick, PathSelectionError,
};
use crate::primitives::aead_accepts_len;
use crate::session::Session;
use crate::topology::{relay_views, RelayInfo, RelayInfoView, Topology};

verus! {

#[derive(Debug)]
pub enum ClientError {
    Core(VeilError),
    Routing(CircuitError),
    Io(std::io::Error),
}

/// The exit relay a cell was routed through, reported so that a caller
/// can tell where the cell should surface.
pub struct SentCircuit {
    pub exit_relay_id: String,
}

/// A cell ready to go out: the onion to write to the first hop, that
/// hop's address, and the id of the exit relay.
pub struct PreparedCell {
    pub first_hop: String,
    pub onion: Vec<u8>,
    pub exit_relay_id: String,
}

/// The envelope that carries cell `c` sealed for a session: the
/// session's public key, then the cell encrypted under the session key
/// with `nonce`.
pub open spec fn sealed_envelope(session: Session, nonce: Seq<u8>, c: CellView) -> Seq<u8> {
    spec_wrap(session.public(), spec_encrypted_cell(session.key(), nonce, c))
}

/// Whether `p` routes `body` through `path`: the onion is a circuit over
/// `path` carrying `body`, sent to the first relay, leaving at the last.
pub open spec fn routes_through(p: PreparedCell, path: Seq<RelayInfoView>, body: Seq<u8>) -> bool {
    &&& path.len() > 0
    &&& is_circuit(p.onion@, path, body)
    &&& p.first_hop@ == path[0].address
    &&& p.exit_relay_id@ == path.last().id
}

/// Seals a cell for a session: encrypted under the session key with a
/// fresh nonce, behind the session's public key so that a separate
/// recipient process can derive the same key.
pub fn seal_cell(session: &Session, cell: &Cell) -> (r: Result<[u8; ENVELOPE_SIZE], VeilError>)
    ensures
        r matches Ok(env) && env@ == sealed_envelope(
            *session,
            env@.subrange(32, 32 + NONCE_SIZE),
            cell@,
        ),
{
    let encrypted = match encrypt_cell(session.cell_key(), cell) {
        Ok(e) => e,
        Err(e) => {
            return Err(e);
        },
    };
    let envelope = wrap(&session.public_key(), &encrypted);
    proof {
        assert(envelope@.subrange(32, 32 + NONCE_SIZE) =~= encrypted@.take(NONCE_SIZE as int));
    }
    Ok(envelope)
}

/// Sends a client's cells through a topology, each along a freshly
/// drawn subnet-diverse path of `hop_count` relays.
pub struct VeilClient {
    topology: Arc<Topology>,
    hop_count: usize,
}

impl VeilClient {
    /// The relays this client routes through.
    pub closed spec fn relays(&self) -> Seq<RelayInfoView> {
        self.topology@
    }

    /// How many relays each circuit passes through.
    pub closed spec fn hops(&self) -> usize {
        self.hop_count
    }

    pub fn new(topology: Topology, hop_count: usize) -> (r: Self)
        ensures
            r.relays() == topology@,
            r.hops() == hop_count,
    {
        VeilClient { topology: Arc::new(topology), hop_count }
    }

    /// The shared topology, for a cover-traffic task.
    pub fn topology(&self) -> (r: Arc<Topology>)
        ensures
            r@ == self.relays(),
    {
        self.topology.clone()
    }

    /// How many relays each circuit passes through.
    pub fn hop_count(&self) -> (r: usize)
        ensures
            r == self.hops(),
    {
        self.hop_count
    }

    /// Prepares one cell of a message: seals it for `session`, draws a
    /// fresh subnet-diverse path, and wraps the envelope in one onion
    /// layer per relay of the path. Every cell gets its own path, so no
    /// single relay, and no observer, can link the fragments of one
    /// message by path.
    pub fn prepare_cell(&self, session: &Session, cell: &Cell, rng: &mut OsRng) -> (r: Result<
        PreparedCell,
        ClientError,
    >)
        ensures
            self.relays().len() < self.hops() ==> (r matches Err(
                ClientError::Routing(
                    CircuitError::PathSelection(
                        PathSelectionError::InsufficientRelays { needed, available },
                    ),
                ),
            ) && needed == self.hops() && available == self.relays().len()),
            self.hops() == 0 ==> r matches Err(ClientError::Routing(CircuitError::EmptyPath)),
            r matches Ok(p) ==> exists|perm: Seq<usize>, nonce: Seq<u8>|
                is_index_permutation(perm, self.relays().len()) && nonce.len() == NONCE_SIZE
                    && sealed_envelope(*session, nonce, cell@).len() == ENVELOPE_SIZE
                    && #[trigger] routes_through(
                    p,
                    spec_diverse_pick(perm_views(self.relays(), perm), self.hops() as nat),
                    sealed_envelope(*session, nonce, cell@),
                ),
            r matches Err(ClientError::Routing(CircuitError::Onion(e))) ==> e is KeyDerivation
                && exists|perm: Seq<usize>|
                is_index_permutation(perm, self.relays().len()) && !aead_accepts_len(
                    #[trigger] layer_plaintext_len(
                        spec_diverse_pick(perm_views(self.relays(), perm), self.hops() as nat),
                        ENVELOPE_SIZE as nat,
                        0,
                    ) as int,
                ),
            1 <= self.hops() <= self.relays().len() ==> (r is Ok || r matches Err(
                ClientError::Routing(CircuitError::Onion(_)),
            )),
    {
        let envelope = match seal_cell(session, cell) {
            Ok(e) => e,
            Err(e) => {
                return Err(ClientError::Core(e));
            },
        };
        let ghost nonce = envelope@.subrange(32, 32 + NONCE_SIZE);
        let topology: &Topology = &self.topology;
        let path = match select_diverse_path(topology, self.hop_count, rng) {
            Ok(p) => p,
            Err(e) => {
                return Err(ClientError::Routing(CircuitError::PathSelection(e)));
            },
        };
        let ghost views = relay_views(path@);
        let ghost perm = choose|perm: Seq<usize>|
            is_index_permutation(perm, topology@.len()) && relay_views(path@) == spec_diverse_pick(
                #[trigger] perm_views(topology@, perm),
                self.hop_count as nat,
            );
        assert(views == spec_diverse_pick(perm_views(self.relays(), perm), self.hops() as nat));
        let mut body: Vec<u8> = Vec::new();
        crate::bytes::append_bytes(&mut body, envelope.as_slice());
        assert(body@ =~= envelope@);
        let onion = match build_circuit(path.as_slice(), body) {
            Ok(o) => o,
            Err(e) => {
                proof {
                    if e is Onion {
                        assert(!aead_accepts_len(
                            layer_plaintext_len(
                                spec_diverse_pick(perm_views(self.relays(), perm), self.hops() as nat),
                                ENVELOPE_SIZE as nat,
                                0,
                            ) as int,
                        ));
                    }
                }
                return Err(ClientError::Routing(e));
            },
        };
        let first: &RelayInfo = path[0];
        let exit: &RelayInfo = path[path.len() - 1];
        let prepared = PreparedCell {
            first_hop: first.address.clone(),
            onion,
            exit_relay_id: exit.id.clone(),
        };
        proof {
            assert(views[0] == first@);
            assert(views.last() == exit@);
            assert(nonce.len() == NONCE_SIZE);
            assert(routes_through(
                prepared,
                spec_diverse_pick(perm_views(self.relays(), perm), self.hops() as nat),
                sealed_envelope(*session, nonce, cell@),
            ));
            assert(exists|perm: Seq<usize>, nonce: Seq<u8>|
                is_index_permutation(perm, self.relays().len()) && nonce.len() == NONCE_SIZE
                    && sealed_envelope(*session, nonce, cell@).len() == ENVELOPE_SIZE
                    && #[trigger] routes_through(
                    prepared,
                    spec_diverse_pick(perm_views(self.relays(), perm), self.hops() as nat),
                    sealed_envelope(*session, nonce, cell@),
                ));
        }
        let r = Ok(prepared);
        assert(r matches Ok(p) && p == prepared);
        r
    }
}

} // verus!
