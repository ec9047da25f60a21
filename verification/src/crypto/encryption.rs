//! Per-cell authenticated encryption with ChaCha20-Poly1305.

use vstd::prelude::*;

use crate::cell::{
    lemma_parse_inverts_serialize, spec_cell_bytes, spec_parse_cell, cell_result_is, Cell,
    CellView, CELL_SIZE,
};
use crate::error::{VeilError, VeilResult};
use crate::primitives::{aead_open, aead_seal, chacha20poly1305_open, chacha20poly1305_seal, fill_random, os_rng};

verus! {

/// Length of the random nonce that leads every ciphertext.
pub const NONCE_SIZE: usize = 12;

/// Length of the Poly1305 tag that closes every ciphertext.
pub const TAG_SIZE: usize = 16;

/// Size of an encrypted cell on the wire: nonce, ciphertext, tag.
pub const ENCRYPTED_CELL_SIZE: usize = NONCE_SIZE + CELL_SIZE + TAG_SIZE;

/// The encrypted form of cell `c` under `key` with `nonce`.
pub open spec fn spec_encrypted_cell(key: Seq<u8>, nonce: Seq<u8>, c: CellView) -> Seq<u8> {
    nonce + chacha20poly1305_seal(key, nonce, spec_cell_bytes(c))
}

/// What decrypting `data` under `key` gives: the parsed cell, or
/// `DecryptionFailed` when the tag does not authenticate.
pub open spec fn spec_decrypt_cell(key: Seq<u8>, data: Seq<u8>) -> Result<CellView, VeilError> {
    match chacha20poly1305_open(key, data.take(NONCE_SIZE as int), data.skip(NONCE_SIZE as int)) {
        None => Err(VeilError::DecryptionFailed),
        Some(p) => spec_parse_cell(p),
    }
}

/// Copies a 12-byte nonce out of a longer buffer.
fn nonce_prefix(data: &[u8]) -> (r: [u8; NONCE_SIZE])
    requires
        data@.len() >= NONCE_SIZE,
    ensures
        r@ == data@.take(NONCE_SIZE as int),
{
    let mut nonce = [0u8; NONCE_SIZE];
    let mut i: usize = 0;
    while i < NONCE_SIZE
        invariant
            i <= NONCE_SIZE <= data@.len(),
            forall|j: int| 0 <= j < i ==> nonce@[j] == data@[j],
        decreases NONCE_SIZE - i,
    {
        nonce[i] = data[i];
        i = i + 1;
    }
    assert(nonce@ =~= data@.take(NONCE_SIZE as int));
    nonce
}

/// Encrypts one cell under a 256-bit key.
///
/// A fresh random nonce is drawn on every call and leads the output, so
/// encrypting the same cell twice never gives the same bytes.
pub fn encrypt_cell(key: &[u8; 32], cell: &Cell) -> (r: VeilResult<[u8; ENCRYPTED_CELL_SIZE]>)
    ensures
        r matches Ok(out) && out@ == spec_encrypted_cell(key@, out@.take(NONCE_SIZE as int), cell@),
{
    let mut rng = os_rng();
    let mut nonce = [0u8; NONCE_SIZE];
    fill_random(&mut rng, &mut nonce);
    let plaintext = cell.to_bytes();
    let ciphertext = match aead_seal(key, &nonce, &plaintext) {
        Some(c) => c,
        None => {
            return Err(VeilError::EncryptionFailed);
        },
    };
    let mut out = [0u8; ENCRYPTED_CELL_SIZE];
    let mut i: usize = 0;
    while i < NONCE_SIZE
        invariant
            i <= NONCE_SIZE,
            forall|j: int| 0 <= j < i ==> out@[j] == nonce@[j],
        decreases NONCE_SIZE - i,
    {
        out[i] = nonce[i];
        i = i + 1;
    }
    let mut k: usize = 0;
    while k < ciphertext.len()
        invariant
            ciphertext@.len() == CELL_SIZE + 16,
            k <= ciphertext@.len(),
            forall|j: int| 0 <= j < NONCE_SIZE ==> out@[j] == nonce@[j],
            forall|j: int| 0 <= j < k ==> out@[NONCE_SIZE + j] == ciphertext@[j],
        decreases ciphertext@.len() - k,
    {
        out[NONCE_SIZE + k] = ciphertext[k];
        k = k + 1;
    }
    assert(out@.take(NONCE_SIZE as int) =~= nonce@);
    assert(out@ =~= nonce@ + ciphertext@);
    Ok(out)
}

/// Decrypts and parses a cell produced by [`encrypt_cell`].
///
/// Any authentication failure (wrong key, corruption in transit, forgery)
/// gives the same [`VeilError::DecryptionFailed`]: nobody learns why a
/// cell failed, only that it did. Decrypting what [`encrypt_cell`]
/// produced under the same key gives back the original cell.
pub fn decrypt_cell(key: &[u8; 32], data: &[u8; ENCRYPTED_CELL_SIZE]) -> (r: VeilResult<Cell>)
    ensures
        cell_result_is(r, spec_decrypt_cell(key@, data@)),
        forall|nonce: Seq<u8>, c: CellView|
            c.wf() && nonce.len() == NONCE_SIZE && data@ == #[trigger] spec_encrypted_cell(
                key@,
                nonce,
                c,
            ) ==> (r matches Ok(d) && d@ == c),
{
    let nonce = nonce_prefix(data);
    let ciphertext = &data[NONCE_SIZE..ENCRYPTED_CELL_SIZE];
    assert(ciphertext@ =~= data@.skip(NONCE_SIZE as int));
    let opened = aead_open(key, &nonce, ciphertext);
    let plaintext = match opened {
        Some(p) => p,
        None => {
            proof {
                assert forall|n: Seq<u8>, c: CellView|
                    c.wf() && n.len() == NONCE_SIZE && data@ == #[trigger] spec_encrypted_cell(
                        key@,
                        n,
                        c,
                    ) implies false by {
                    assert(data@.take(NONCE_SIZE as int) =~= n);
                    assert(data@.skip(NONCE_SIZE as int) =~= chacha20poly1305_seal(
                        key@,
                        n,
                        spec_cell_bytes(c),
                    ));
                    lemma_parse_inverts_serialize(c);
                }
            }
            return Err(VeilError::DecryptionFailed);
        },
    };
    let mut buf = [0u8; CELL_SIZE];
    let mut i: usize = 0;
    while i < CELL_SIZE
        invariant
            i <= CELL_SIZE,
            plaintext@.len() == CELL_SIZE,
            forall|j: int| 0 <= j < i ==> buf@[j] == plaintext@[j],
        decreases CELL_SIZE - i,
    {
        buf[i] = plaintext[i];
        i = i + 1;
    }
    assert(buf@ =~= plaintext@);
    let r = Cell::from_bytes(&buf);
    proof {
        assert forall|n: Seq<u8>, c: CellView|
            c.wf() && n.len() == NONCE_SIZE && data@ == #[trigger] spec_encrypted_cell(
                key@,
                n,
                c,
            ) implies (r matches Ok(d) && d@ == c) by {
            assert(data@.take(NONCE_SIZE as int) =~= n);
            assert(data@.skip(NONCE_SIZE as int) =~= chacha20poly1305_seal(
                key@,
                n,
                spec_cell_bytes(c),
            ));
            lemma_parse_inverts_serialize(c);
        }
    }
    r
}

} // verus!
