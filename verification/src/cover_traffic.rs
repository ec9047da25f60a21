//! Cover traffic: dummy cells wrapped exactly like real sends.
//!
//! A dummy cell gets the same envelope size and the same AEAD
//! construction as a real cell, encrypted under a throwaway key that
//! nobody holds and behind a made-up sender key, and travels a freshly
//! selected circuit: neither a relay nor an outside observer can tell it
//! from a real message by its shape. The application runs the schedule
//! and the sockets.

use vstd::prelude::*;
use rand::rngs::OsRng;

use crate::cell::Cell;
use crate::circuit::{build_circuit, layer_plaintext_len};
use crate::client::{routes_through, PreparedCell};
use crate::crypto::encryption::{encrypt_cell, spec_encrypted_cell, NONCE_SIZE};
use crate::crypto::keys::PublicKey;
use crate::envelope::{spec_wrap, wrap, ENVELOPE_SIZE};
use crate::path_selection::{is_index_permutation, perm_views, select_path};
use crate::primitives::{aead_accepts_len, fill_random};
use crate::topology::{relay_views, RelayInfo, Topology};

verus! {

/// Prepares a dummy cell for sending: encrypted under a random throwaway
/// key, enveloped behind a random sender key, and wrapped for a freshly
/// selected path of `hop_count` relays. Gives nothing when no circuit can
/// be built, and the schedule simply moves on to the next dummy cell.
pub fn prepare_cover_cell(topology: &Topology, hop_count: usize, dummy: &Cell, rng: &mut OsRng) -> (r:
    Option<PreparedCell>)
    ensures
        topology@.len() < hop_count || hop_count == 0 ==> r is None,
        r matches Some(p) ==> exists|perm: Seq<usize>, sender: Seq<u8>, key: Seq<u8>, nonce: Seq<u8>|
            is_index_permutation(perm, topology@.len()) && sender.len() == 32 && key.len() == 32
                && nonce.len() == NONCE_SIZE && spec_wrap(sender, spec_encrypted_cell(key, nonce, dummy@)).len()
                == ENVELOPE_SIZE && #[trigger] routes_through(
                p,
                perm_views(topology@, perm).take(hop_count as int),
                spec_wrap(sender, spec_encrypted_cell(key, nonce, dummy@)),
            ),
        1 <= hop_count <= topology@.len() && r is None ==> exists|perm: Seq<usize>|
            is_index_permutation(perm, topology@.len()) && !aead_accepts_len(
                #[trigger] layer_plaintext_len(
                    perm_views(topology@, perm).take(hop_count as int),
                    ENVELOPE_SIZE as nat,
                    0,
                ) as int,
            ),
{
    let mut throwaway_key = [0u8; 32];
    fill_random(rng, &mut throwaway_key);
    let encrypted = match encrypt_cell(&throwaway_key, dummy) {
        Ok(e) => e,
        Err(_) => {
            return None;
        },
    };
    let ghost nonce = encrypted@.take(NONCE_SIZE as int);
    let mut fake_sender = [0u8; 32];
    fill_random(rng, &mut fake_sender);
    let envelope = wrap(&PublicKey(fake_sender), &encrypted);
    let path = match select_path(topology, hop_count, rng) {
        Ok(p) => p,
        Err(_) => {
            return None;
        },
    };
    let ghost views = relay_views(path@);
    let ghost perm = choose|perm: Seq<usize>|
        is_index_permutation(perm, topology@.len()) && relay_views(path@) == #[trigger] perm_views(
            topology@,
            perm,
        ).take(hop_count as int);
    let mut body: Vec<u8> = Vec::new();
    crate::bytes::append_bytes(&mut body, envelope.as_slice());
    assert(body@ =~= envelope@);
    let onion = match build_circuit(path.as_slice(), body) {
        Ok(o) => o,
        Err(_) => {
            proof {
                if hop_count >= 1 {
                    assert(!aead_accepts_len(
                        layer_plaintext_len(
                            perm_views(topology@, perm).take(hop_count as int),
                            ENVELOPE_SIZE as nat,
                            0,
                        ) as int,
                    ));
                }
            }
            return None;
        },
    };
    let first: &RelayInfo = path[0];
    let exit: &RelayInfo = path[path.len() - 1];
    let prepared = PreparedCell {
        first_hop: first.address.clone(),
        onion,
        exit_relay_id: exit.id.clone(),
    };
    proof {
        assert(views[0] == first@);
        assert(views.last() == exit@);
        assert(nonce.len() == NONCE_SIZE);
        assert(routes_through(
            prepared,
            perm_views(topology@, perm).take(hop_count as int),
            spec_wrap(fake_sender@, spec_encrypted_cell(throwaway_key@, nonce, dummy@)),
        ));
        assert(exists|perm: Seq<usize>, sender: Seq<u8>, key: Seq<u8>, nonce: Seq<u8>|
            is_index_permutation(perm, topology@.len()) && sender.len() == 32 && key.len() == 32
                && nonce.len() == NONCE_SIZE && spec_wrap(sender, spec_encrypted_cell(key, nonce, dummy@)).len()
                == ENVELOPE_SIZE && #[trigger] routes_through(
                prepared,
                perm_views(topology@, perm).take(hop_count as int),
                spec_wrap(sender, spec_encrypted_cell(key, nonce, dummy@)),
            ));
    }
    let r = Some(prepared);
    assert(r matches Some(p) && p == prepared);
    r
}

} // verus!
