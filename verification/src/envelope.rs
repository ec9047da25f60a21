//! Wire envelope: an encrypted cell preceded by the sender's ephemeral
//! public key.
//!
//! A session key comes from the sender's ephemeral secret and the
//! recipient's public key. A separate receiving process can only derive
//! the same key if it learns that ephemeral public key, so the key
//! travels with every cell: the envelope, not the bare encrypted cell, is
//! what a circuit delivers.

use vstd::prelude::*;

use crate::crypto::encryption::ENCRYPTED_CELL_SIZE;
use crate::crypto::keys::PublicKey;

verus! {

/// Size of an envelope: a 32-byte X25519 public key, then an encrypted
/// cell.
pub const ENVELOPE_SIZE: usize = 32 + ENCRYPTED_CELL_SIZE;

#[derive(Debug)]
pub enum EnvelopeError {
    WrongLength { expected: usize, actual: usize },
}

/// The envelope bytes for a sender key and an encrypted cell.
pub open spec fn spec_wrap(sender_public: Seq<u8>, encrypted_cell: Seq<u8>) -> Seq<u8> {
    sender_public + encrypted_cell
}

/// What unwrapping `envelope` gives: the sender key and the encrypted
/// cell, or the length error.
pub open spec fn spec_unwrap(envelope: Seq<u8>) -> Result<(Seq<u8>, Seq<u8>), EnvelopeError> {
    if envelope.len() != ENVELOPE_SIZE {
        Err(EnvelopeError::WrongLength { expected: ENVELOPE_SIZE, actual: envelope.len() as usize })
    } else {
        Ok((envelope.take(32), envelope.skip(32)))
    }
}

/// Wraps an encrypted cell with the sender's ephemeral public key.
pub fn wrap(sender_public: &PublicKey, encrypted_cell: &[u8; ENCRYPTED_CELL_SIZE]) -> (r: [u8;
    ENVELOPE_SIZE])
    ensures
        r@ == spec_wrap(sender_public@, encrypted_cell@),
{
    let mut out = [0u8; ENVELOPE_SIZE];
    let mut i: usize = 0;
    while i < 32
        invariant
            i <= 32,
            forall|j: int| 0 <= j < i ==> out@[j] == sender_public@[j],
        decreases 32 - i,
    {
        out[i] = sender_public.0[i];
        i = i + 1;
    }
    let mut k: usize = 0;
    while k < ENCRYPTED_CELL_SIZE
        invariant
            k <= ENCRYPTED_CELL_SIZE,
            forall|j: int| 0 <= j < 32 ==> out@[j] == sender_public@[j],
            forall|j: int| 0 <= j < k ==> out@[32 + j] == encrypted_cell@[j],
        decreases ENCRYPTED_CELL_SIZE - k,
    {
        out[32 + k] = encrypted_cell[k];
        k = k + 1;
    }
    assert(out@ =~= spec_wrap(sender_public@, encrypted_cell@));
    out
}

/// Splits a received envelope into the sender's ephemeral public key and
/// the still-encrypted cell.
pub fn unwrap(envelope: &[u8]) -> (r: Result<(PublicKey, [u8; ENCRYPTED_CELL_SIZE]), EnvelopeError>)
    ensures
        match spec_unwrap(envelope@) {
            Ok((k, c)) => r matches Ok((pk, cell)) && pk@ == k && cell@ == c,
            Err(e) => r matches Err(f) && f == e,
        },
{
    if envelope.len() != ENVELOPE_SIZE {
        return Err(EnvelopeError::WrongLength { expected: ENVELOPE_SIZE, actual: envelope.len() });
    }
    let mut pub_bytes = [0u8; 32];
    let mut i: usize = 0;
    while i < 32
        invariant
            i <= 32,
            envelope@.len() == ENVELOPE_SIZE,
            forall|j: int| 0 <= j < i ==> pub_bytes@[j] == envelope@[j],
        decreases 32 - i,
    {
        pub_bytes[i] = envelope[i];
        i = i + 1;
    }
    let mut cell_bytes = [0u8; ENCRYPTED_CELL_SIZE];
    let mut k: usize = 0;
    while k < ENCRYPTED_CELL_SIZE
        invariant
            k <= ENCRYPTED_CELL_SIZE,
            envelope@.len() == ENVELOPE_SIZE,
            forall|j: int| 0 <= j < k ==> cell_bytes@[j] == envelope@[32 + j],
        decreases ENCRYPTED_CELL_SIZE - k,
    {
        cell_bytes[k] = envelope[32 + k];
        k = k + 1;
    }
    assert(pub_bytes@ =~= envelope@.take(32));
    assert(cell_bytes@ =~= envelope@.skip(32));
    Ok((PublicKey(pub_bytes), cell_bytes))
}

/// Unwrapping an envelope gives back the key and the cell it was
/// wrapped from.
pub proof fn lemma_unwrap_inverts_wrap(sender_public: Seq<u8>, encrypted_cell: Seq<u8>)
    requires
        sender_public.len() == 32,
        encrypted_cell.len() == ENCRYPTED_CELL_SIZE,
    ensures
        spec_unwrap(spec_wrap(sender_public, encrypted_cell)) == Ok::<
            (Seq<u8>, Seq<u8>),
            EnvelopeError,
        >((sender_public, encrypted_cell)),
{
    let e = spec_wrap(sender_public, encrypted_cell);
    assert(e.take(32) =~= sender_public);
    assert(e.skip(32) =~= encrypted_cell);
}

} // verus!
