//! Onion-layer packet format: construction, peeling, and the length
//! prefix that frames layers on a relay-to-relay connection.
//!
//! A relay only ever sees the single layer addressed to it. Peeling that
//! layer with the relay's static key reveals either the next hop to
//! forward the (still opaque) body to, or a `Deliver` marker when the
//! relay is the circuit's exit. No relay sees the full path, the sender,
//! or the plaintext of a `Forward` body.
//!
//! Layer size is not padded to a constant across hop depth, so size can
//! hint at a cell's position in its circuit.

use vstd::prelude::*;
use vstd::utf8::{decode_utf8, encode_utf8, encode_utf8_decode_utf8, encode_utf8_valid_utf8, valid_utf8};

use crate::bytes::append_bytes;
use crate::cell::{be16, from_be16};
use crate::crypto::keys::{KeyPair, PublicKey};
use crate::primitives::{
    aead_accepts_len, aead_open, aead_seal, chacha20poly1305_open, chacha20poly1305_seal,
    fill_random, hkdf_sha256_32, hkdf_sha256_expand, os_rng, random_static_secret,
    string_from_utf8, x25519_base, x25519_diffie_hellman, x25519_public_from_secret, x25519_shared,
};

verus! {

pub const EPHEMERAL_KEY_SIZE: usize = 32;

pub const NONCE_SIZE: usize = 12;

pub const TAG_SIZE: usize = 16;

/// Smallest frame that can hold a layer: ephemeral key, nonce and tag.
pub const MIN_LAYER_SIZE: usize = EPHEMERAL_KEY_SIZE + NONCE_SIZE + TAG_SIZE;

/// HKDF context that binds a layer key to onion routing.
pub const ONION_KEY_CONTEXT: &'static str = "veil-onion-layer-v1";

#[derive(Debug)]
pub enum OnionError {
    FrameTooShort,
    DecryptionFailed,
    Malformed,
    KeyDerivation,
}

/// What a relay learns from peeling its layer.
pub enum OnionPayload {
    Forward { next_hop: String, body: Vec<u8> },
    Deliver { body: Vec<u8> },
}

/// An onion payload as plain values.
pub enum OnionPayloadView {
    Forward { next_hop: Seq<char>, body: Seq<u8> },
    Deliver { body: Seq<u8> },
}

impl View for OnionPayload {
    type V = OnionPayloadView;

    open spec fn view(&self) -> OnionPayloadView {
        match self {
            OnionPayload::Forward { next_hop, body } => OnionPayloadView::Forward {
                next_hop: next_hop@,
                body: body@,
            },
            OnionPayload::Deliver { body } => OnionPayloadView::Deliver { body: body@ },
        }
    }
}

/// The plaintext inside a layer. `Forward`: flag 0, the next hop's UTF-8
/// length as a big-endian `u16` (the length is taken modulo 65536), the
/// next hop, the body. `Deliver`: flag 1, the body.
pub open spec fn spec_encode_payload(p: OnionPayloadView) -> Seq<u8> {
    match p {
        OnionPayloadView::Forward { next_hop, body } => seq![0u8] + be16(
            (encode_utf8(next_hop).len() % 65536) as u16,
        ) + encode_utf8(next_hop) + body,
        OnionPayloadView::Deliver { body } => seq![1u8] + body,
    }
}

/// Whether a payload survives encoding: a next hop must fit its 16-bit
/// length field.
pub open spec fn encodable(p: OnionPayloadView) -> bool {
    match p {
        OnionPayloadView::Forward { next_hop, .. } => encode_utf8(next_hop).len() <= 0xffff,
        OnionPayloadView::Deliver { .. } => true,
    }
}

/// What decoding a layer's plaintext gives.
pub open spec fn spec_decode_payload(b: Seq<u8>) -> Result<OnionPayloadView, OnionError> {
    if b.len() == 0 {
        Err(OnionError::Malformed)
    } else if b[0] == 0 {
        let rest = b.skip(1);
        if rest.len() < 2 {
            Err(OnionError::Malformed)
        } else {
            let hop_len = from_be16(rest[0], rest[1]) as int;
            let rest = rest.skip(2);
            if rest.len() < hop_len {
                Err(OnionError::Malformed)
            } else if !valid_utf8(rest.take(hop_len)) {
                Err(OnionError::Malformed)
            } else {
                Ok(
                    OnionPayloadView::Forward {
                        next_hop: decode_utf8(rest.take(hop_len)),
                        body: rest.skip(hop_len),
                    },
                )
            }
        }
    } else if b[0] == 1 {
        Ok(OnionPayloadView::Deliver { body: b.skip(1) })
    } else {
        Err(OnionError::Malformed)
    }
}

/// Whether `r` is the executable form of the specified outcome `s`.
pub open spec fn payload_result_is(
    r: Result<OnionPayload, OnionError>,
    s: Result<OnionPayloadView, OnionError>,
) -> bool {
    match s {
        Ok(v) => r matches Ok(p) && p@ == v,
        Err(e) => r matches Err(f) && f == e,
    }
}

/// The layer key for a Diffie-Hellman output.
pub open spec fn spec_layer_key(shared: Seq<u8>) -> Seq<u8> {
    hkdf_sha256_32(shared, ONION_KEY_CONTEXT@.map_values(|c: char| c as u8))
}

/// The layer that carries payload `p` to the relay with public key
/// `relay_public`, built with ephemeral secret `eph` and nonce `nonce`:
/// the ephemeral public key, the nonce, then the encrypted payload.
pub open spec fn spec_onion_layer(
    relay_public: Seq<u8>,
    p: OnionPayloadView,
    eph: Seq<u8>,
    nonce: Seq<u8>,
) -> Seq<u8> {
    x25519_base(eph) + nonce + chacha20poly1305_seal(
        spec_layer_key(x25519_shared(eph, relay_public)),
        nonce,
        spec_encode_payload(p),
    )
}

/// Whether `frame` is a layer carrying `p` to `relay_public`, for some
/// ephemeral secret and nonce: the encrypted payload is 16 bytes longer
/// than the payload's encoding.
pub open spec fn is_onion_layer(frame: Seq<u8>, relay_public: Seq<u8>, p: OnionPayloadView) -> bool {
    &&& frame.len() == MIN_LAYER_SIZE + spec_encode_payload(p).len()
    &&& exists|eph: Seq<u8>, nonce: Seq<u8>|
        eph.len() == 32 && x25519_base(eph).len() == 32 && nonce.len() == NONCE_SIZE && frame
            == #[trigger] spec_onion_layer(relay_public, p, eph, nonce)
}

/// What peeling `frame` with the relay's private key `secret` gives.
pub open spec fn spec_peel(secret: Seq<u8>, frame: Seq<u8>) -> Result<OnionPayloadView, OnionError> {
    if frame.len() < MIN_LAYER_SIZE {
        Err(OnionError::FrameTooShort)
    } else {
        let key = spec_layer_key(x25519_shared(secret, frame.take(EPHEMERAL_KEY_SIZE as int)));
        match chacha20poly1305_open(
            key,
            frame.subrange(EPHEMERAL_KEY_SIZE as int, (EPHEMERAL_KEY_SIZE + NONCE_SIZE) as int),
            frame.skip((EPHEMERAL_KEY_SIZE + NONCE_SIZE) as int),
        ) {
            None => Err(OnionError::DecryptionFailed),
            Some(plaintext) => spec_decode_payload(plaintext),
        }
    }
}

/// The bytes of the layer-key context.
fn onion_context() -> (r: &'static [u8])
    ensures
        r@ == ONION_KEY_CONTEXT@.map_values(|c: char| c as u8),
{
    proof {
        reveal_strlit("veil-onion-layer-v1");
    }
    let r = ONION_KEY_CONTEXT.as_bytes();
    proof {
        vstd::string::is_ascii_spec_bytes(ONION_KEY_CONTEXT);
        assert(r@ =~= ONION_KEY_CONTEXT@.map_values(|c: char| c as u8));
    }
    r
}

/// Builds one layer addressed to `relay_public`. The sender wraps each
/// hop of a circuit this way, innermost first, so that only the intended
/// relay can peel it. Fails only for a payload too long for the cipher.
pub fn build_onion_layer(relay_public: &PublicKey, payload: &OnionPayload) -> (r: Result<
    Vec<u8>,
    OnionError,
>)
    ensures
        r is Ok <==> aead_accepts_len(spec_encode_payload(payload@).len() as int),
        r matches Ok(frame) ==> is_onion_layer(frame@, relay_public@, payload@),
        r matches Err(e) ==> e is KeyDerivation,
{
    let mut rng = os_rng();
    let ephemeral = random_static_secret(&mut rng);
    let ephemeral_public = x25519_public_from_secret(&ephemeral);
    let shared = x25519_diffie_hellman(&ephemeral, &relay_public.0);
    let key = match derive_key_from_bytes(&shared) {
        Ok(k) => k,
        Err(e) => {
            return Err(e);
        },
    };
    let plaintext = encode_payload(payload);
    let mut nonce = [0u8; NONCE_SIZE];
    fill_random(&mut rng, &mut nonce);
    let ciphertext = match aead_seal(&key, &nonce, plaintext.as_slice()) {
        Some(c) => c,
        None => {
            return Err(OnionError::KeyDerivation);
        },
    };
    let mut out: Vec<u8> = Vec::new();
    append_bytes(&mut out, ephemeral_public.as_slice());
    append_bytes(&mut out, nonce.as_slice());
    append_bytes(&mut out, ciphertext.as_slice());
    assert(out@ == spec_onion_layer(relay_public@, payload@, ephemeral@, nonce@));
    Ok(out)
}

/// Peels the outer layer with this relay's key pair.
///
/// Peeling a layer that [`build_onion_layer`] built for this key pair's
/// public key gives back the payload it carried.
pub fn peel_onion_layer(keypair: &KeyPair, frame: &[u8]) -> (r: Result<OnionPayload, OnionError>)
    ensures
        payload_result_is(r, spec_peel(keypair.secret(), frame@)),
        forall|p: OnionPayloadView|
            encodable(p) && aead_accepts_len(spec_encode_payload(p).len() as int)
                && #[trigger] is_onion_layer(frame@, keypair.public(), p) ==> (r matches Ok(q)
                && q@ == p),
{
    if frame.len() < MIN_LAYER_SIZE {
        proof {
            assert forall|p: OnionPayloadView|
                encodable(p) && aead_accepts_len(spec_encode_payload(p).len() as int)
                    && #[trigger] is_onion_layer(frame@, keypair.public(), p) implies false by {
                let (eph, nonce) = choose|eph: Seq<u8>, nonce: Seq<u8>|
                    eph.len() == 32 && x25519_base(eph).len() == 32 && nonce.len() == NONCE_SIZE
                        && frame@ == #[trigger] spec_onion_layer(keypair.public(), p, eph, nonce);
            }
        }
        return Err(OnionError::FrameTooShort);
    }
    let mut ephemeral_bytes = [0u8; EPHEMERAL_KEY_SIZE];
    let mut i: usize = 0;
    while i < EPHEMERAL_KEY_SIZE
        invariant
            i <= EPHEMERAL_KEY_SIZE <= frame@.len(),
            forall|j: int| 0 <= j < i ==> ephemeral_bytes@[j] == frame@[j],
        decreases EPHEMERAL_KEY_SIZE - i,
    {
        ephemeral_bytes[i] = frame[i];
        i = i + 1;
    }
    assert(ephemeral_bytes@ =~= frame@.take(EPHEMERAL_KEY_SIZE as int));
    let ephemeral_public = PublicKey(ephemeral_bytes);
    let shared = keypair.diffie_hellman(&ephemeral_public);
    let key = match shared.derive_key(onion_context()) {
        Ok(k) => k,
        Err(_) => {
            return Err(OnionError::KeyDerivation);
        },
    };
    let mut nonce = [0u8; NONCE_SIZE];
    let mut k: usize = 0;
    while k < NONCE_SIZE
        invariant
            k <= NONCE_SIZE,
            MIN_LAYER_SIZE <= frame@.len(),
            forall|j: int| 0 <= j < k ==> nonce@[j] == frame@[EPHEMERAL_KEY_SIZE + j],
        decreases NONCE_SIZE - k,
    {
        nonce[k] = frame[EPHEMERAL_KEY_SIZE + k];
        k = k + 1;
    }
    assert(nonce@ =~= frame@.subrange(
        EPHEMERAL_KEY_SIZE as int,
        (EPHEMERAL_KEY_SIZE + NONCE_SIZE) as int,
    ));
    let ciphertext = &frame[EPHEMERAL_KEY_SIZE + NONCE_SIZE..frame.len()];
    assert(ciphertext@ =~= frame@.skip((EPHEMERAL_KEY_SIZE + NONCE_SIZE) as int));
    let opened = aead_open(&key, &nonce, ciphertext);
    proof {
        assert forall|p: OnionPayloadView|
            encodable(p) && aead_accepts_len(spec_encode_payload(p).len() as int)
                && #[trigger] is_onion_layer(frame@, keypair.public(), p) implies (opened matches Some(
            q,
        ) && q@ == spec_encode_payload(p)) by {
            let (eph, n) = choose|eph: Seq<u8>, nonce: Seq<u8>|
                eph.len() == 32 && x25519_base(eph).len() == 32 && nonce.len() == NONCE_SIZE
                    && frame@ == #[trigger] spec_onion_layer(keypair.public(), p, eph, nonce);
            let sealed = chacha20poly1305_seal(
                spec_layer_key(x25519_shared(eph, keypair.public())),
                n,
                spec_encode_payload(p),
            );
            assert(frame@ == x25519_base(eph) + n + sealed);
            assert(frame@.take(EPHEMERAL_KEY_SIZE as int) =~= x25519_base(eph));
            assert(frame@.subrange(
                EPHEMERAL_KEY_SIZE as int,
                (EPHEMERAL_KEY_SIZE + NONCE_SIZE) as int,
            ) =~= n);
            assert(frame@.skip((EPHEMERAL_KEY_SIZE + NONCE_SIZE) as int) =~= sealed);
            assert(shared@ == x25519_shared(eph, keypair.public()));
        }
    }
    let plaintext = match opened {
        Some(p) => p,
        None => {
            return Err(OnionError::DecryptionFailed);
        },
    };
    let r = decode_payload(plaintext.as_slice());
    proof {
        assert forall|p: OnionPayloadView|
            encodable(p) && aead_accepts_len(spec_encode_payload(p).len() as int)
                && #[trigger] is_onion_layer(frame@, keypair.public(), p) implies (r matches Ok(q)
            && q@ == p) by {
            lemma_decode_inverts_encode(p);
        }
    }
    r
}

/// The layer key for a raw Diffie-Hellman output: HKDF-SHA256 under the
/// onion context, as `SharedSecret::derive_key` does for a key pair.
fn derive_key_from_bytes(shared_secret: &[u8; 32]) -> (r: Result<[u8; 32], OnionError>)
    ensures
        r matches Ok(k) && k@ == spec_layer_key(shared_secret@),
{
    match hkdf_sha256_expand(shared_secret, onion_context()) {
        Ok(okm) => Ok(okm),
        Err(_) => Err(OnionError::KeyDerivation),
    }
}

/// Encodes a payload as a layer's plaintext.
fn encode_payload(payload: &OnionPayload) -> (r: Vec<u8>)
    ensures
        r@ == spec_encode_payload(payload@),
{
    match payload {
        OnionPayload::Forward { next_hop, body } => {
            let hop_bytes = next_hop.as_str().as_bytes();
            let mut out: Vec<u8> = Vec::new();
            out.push(0u8);
            let hop_len: u16 = (hop_bytes.len() % 65536) as u16;
            out.push((hop_len / 256) as u8);
            out.push((hop_len % 256) as u8);
            append_bytes(&mut out, hop_bytes);
            append_bytes(&mut out, body.as_slice());
            assert(out@ =~= spec_encode_payload(payload@));
            out
        },
        OnionPayload::Deliver { body } => {
            let mut out: Vec<u8> = Vec::new();
            out.push(1u8);
            append_bytes(&mut out, body.as_slice());
            assert(out@ =~= spec_encode_payload(payload@));
            out
        },
    }
}

/// Decodes a layer's plaintext.
fn decode_payload(bytes: &[u8]) -> (r: Result<OnionPayload, OnionError>)
    ensures
        payload_result_is(r, spec_decode_payload(bytes@)),
{
    if bytes.len() == 0 {
        return Err(OnionError::Malformed);
    }
    let flag = bytes[0];
    let rest = &bytes[1..bytes.len()];
    assert(rest@ =~= bytes@.skip(1));
    if flag == 0 {
        if rest.len() < 2 {
            return Err(OnionError::Malformed);
        }
        let hop_len = ((rest[0] as u16) * 256 + (rest[1] as u16)) as usize;
        let rest = &rest[2..rest.len()];
        assert(rest@ =~= bytes@.skip(1).skip(2));
        if rest.len() < hop_len {
            return Err(OnionError::Malformed);
        }
        let hop = slice_prefix_to_vec(rest, hop_len);
        let next_hop = match string_from_utf8(hop) {
            Some(s) => s,
            None => {
                return Err(OnionError::Malformed);
            },
        };
        let body = slice_suffix_to_vec(rest, hop_len);
        Ok(OnionPayload::Forward { next_hop, body })
    } else if flag == 1 {
        let body = slice_suffix_to_vec(rest, 0);
        assert(body@ =~= rest@);
        Ok(OnionPayload::Deliver { body })
    } else {
        Err(OnionError::Malformed)
    }
}

/// The first `n` bytes of `s`, copied.
fn slice_prefix_to_vec(s: &[u8], n: usize) -> (r: Vec<u8>)
    requires
        n <= s@.len(),
    ensures
        r@ == s@.take(n as int),
{
    let mut out: Vec<u8> = Vec::new();
    append_bytes(&mut out, &s[0..n]);
    assert(out@ =~= s@.take(n as int));
    out
}

/// The bytes of `s` from position `n` on, copied.
fn slice_suffix_to_vec(s: &[u8], n: usize) -> (r: Vec<u8>)
    requires
        n <= s@.len(),
    ensures
        r@ == s@.skip(n as int),
{
    let mut out: Vec<u8> = Vec::new();
    append_bytes(&mut out, &s[n..s.len()]);
    assert(out@ =~= s@.skip(n as int));
    out
}

/// Decoding an encodable payload's encoding gives the payload back.
pub proof fn lemma_decode_inverts_encode(p: OnionPayloadView)
    requires
        encodable(p),
    ensures
        spec_decode_payload(spec_encode_payload(p)) == Ok::<OnionPayloadView, OnionError>(p),
{
    let b = spec_encode_payload(p);
    match p {
        OnionPayloadView::Forward { next_hop, body } => {
            let hop = encode_utf8(next_hop);
            encode_utf8_valid_utf8(next_hop);
            encode_utf8_decode_utf8(next_hop);
            let len16 = (hop.len() % 65536) as u16;
            assert(len16 == hop.len());
            assert(from_be16(be16(len16)[0], be16(len16)[1]) == len16);
            let rest = b.skip(1);
            assert(rest =~= be16(len16) + hop + body);
            assert(rest.skip(2) =~= hop + body);
            assert(rest.skip(2).take(hop.len() as int) =~= hop);
            assert(rest.skip(2).skip(hop.len() as int) =~= body);
        },
        OnionPayloadView::Deliver { body } => {
            assert(b.skip(1) =~= body);
        },
    }
}

/// The 4-byte big-endian length that precedes a frame's body on a
/// relay-to-relay connection (the length is taken modulo 2^32).
pub fn frame_header(body: &[u8]) -> (r: [u8; 4])
    ensures
        r@ == be32((body@.len() % 0x1_0000_0000) as u32),
{
    let len: u32 = ((body.len() as u64) % 0x1_0000_0000u64) as u32;
    [(len / 0x100_0000) as u8, ((len / 0x1_0000) % 256) as u8, ((len / 256) % 256) as u8, (len
        % 256) as u8]
}

/// The body length a frame header announces.
pub fn frame_body_length(header: &[u8; 4]) -> (r: usize)
    ensures
        r == from_be32(header@),
{
    (header[0] as usize) * 0x100_0000 + (header[1] as usize) * 0x1_0000 + (header[2] as usize)
        * 256 + (header[3] as usize)
}

/// Big-endian encoding of a 32-bit integer.
pub open spec fn be32(v: u32) -> Seq<u8> {
    seq![
        (v / 0x100_0000) as u8,
        ((v / 0x1_0000) % 256) as u8,
        ((v / 256) % 256) as u8,
        (v % 256) as u8,
    ]
}

/// The integer a 4-byte big-endian encoding holds.
pub open spec fn from_be32(b: Seq<u8>) -> nat {
    (b[0] * 0x100_0000 + b[1] * 0x1_0000 + b[2] * 256 + b[3]) as nat
}

/// A frame header announces the length of the body it was made for.
pub proof fn lemma_frame_length_roundtrip(len: u32)
    ensures
        from_be32(be32(len)) == len,
{
}

} // verus!
