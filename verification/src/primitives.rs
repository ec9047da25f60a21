//! The library's only contact with outside crates: randomness, X25519,
//! HKDF-SHA256, ChaCha20-Poly1305, hex, and a few std string routines.
//!
//! Every item here is trusted: Verus believes its contract without
//! reading its body. Each doc comment names the outside function and
//! says what the contract claims of it. Where the outside function's
//! result takes pages to state, it gets a name (an uninterpreted spec
//! function); where a few lines state it, they are written out.

use vstd::prelude::*;
use vstd::utf8::{decode_utf8, valid_utf8};
use chacha20poly1305::aead::{Aead, KeyInit};
use chacha20poly1305::{ChaCha20Poly1305, Key, Nonce};
use hkdf::Hkdf;
use rand::rngs::OsRng;
use rand::seq::SliceRandom;
use rand::RngCore;
use sha2::Sha256;
use x25519_dalek::StaticSecret;

verus! {

// ---------------------------------------------------------------------
// Randomness
// ---------------------------------------------------------------------

/// The operating system's cryptographically secure random number
/// generator (`rand::rngs::OsRng`, a re-export of `rand_core::OsRng`).
#[verifier::external_type_specification]
#[verifier::external_body]
pub struct ExOsRng(OsRng);

/// The unit value `rand::rngs::OsRng`: a handle on the operating
/// system's generator. No claim is made of it.
#[verifier::external_body]
pub(crate) fn os_rng() -> (r: OsRng) {
    OsRng
}

/// `RngCore::fill_bytes` on `OsRng`. Claims only that the buffer keeps
/// its length: its new contents are random.
#[verifier::external_body]
pub(crate) fn fill_random(rng: &mut OsRng, buf: &mut [u8])
    ensures
        final(buf)@.len() == old(buf)@.len(),
{
    rng.fill_bytes(buf)
}

/// `rand::seq::SliceRandom::shuffle`, which puts the items in a random
/// order. Claims that the result holds exactly the same items, each as
/// often as before.
#[verifier::external_body]
pub(crate) fn shuffle<T>(items: &mut Vec<T>, rng: &mut OsRng)
    ensures
        final(items)@.to_multiset() == old(items)@.to_multiset(),
        final(items)@.len() == old(items)@.len(),
{
    items.as_mut_slice().shuffle(rng)
}

// ---------------------------------------------------------------------
// Error types carried through the library
// ---------------------------------------------------------------------

/// `std::io::Error`: the error of a network or file operation, which the
/// library's error types carry for the application.
#[verifier::external_type_specification]
#[verifier::external_body]
pub struct ExIoError(std::io::Error);

/// `serde_json::Error`: the error for malformed topology JSON.
#[verifier::external_type_specification]
#[verifier::external_body]
pub struct ExJsonError(serde_json::Error);

// ---------------------------------------------------------------------
// X25519 (x25519-dalek)
// ---------------------------------------------------------------------

/// The public key that X25519 derives from a 32-byte secret:
/// `PublicKey::from(&StaticSecret::from(secret)).to_bytes()`.
pub uninterp spec fn x25519_base(secret: Seq<u8>) -> Seq<u8>;

/// The Diffie-Hellman output of a 32-byte secret with a 32-byte peer
/// public key: `StaticSecret::from(secret).diffie_hellman(&PublicKey::from(peer))`.
pub uninterp spec fn x25519_shared(secret: Seq<u8>, peer: Seq<u8>) -> Seq<u8>;

/// `StaticSecret::random_from_rng`, returned as its 32 bytes. Nothing is
/// claimed of the bytes: they are random.
#[verifier::external_body]
pub(crate) fn random_static_secret(rng: &mut OsRng) -> (r: [u8; 32]) {
    StaticSecret::random_from_rng(rng).to_bytes()
}

/// `x25519_dalek::PublicKey::from(&StaticSecret)`. Claims that the
/// result is the named base-point product of the secret.
#[verifier::external_body]
pub(crate) fn x25519_public_from_secret(secret: &[u8; 32]) -> (r: [u8; 32])
    ensures
        r@ == x25519_base(secret@),
{
    x25519_dalek::PublicKey::from(&StaticSecret::from(*secret)).to_bytes()
}

/// `StaticSecret::diffie_hellman`. Claims that the result is the named
/// shared secret, and the key-agreement property that the crate's
/// documentation demonstrates: when the peer key is the public key of
/// some secret `other`, the result equals what `other` computes against
/// this secret's public key.
#[verifier::external_body]
pub(crate) fn x25519_diffie_hellman(secret: &[u8; 32], peer: &[u8; 32]) -> (r: [u8; 32])
    ensures
        r@ == x25519_shared(secret@, peer@),
        forall|other: Seq<u8>|
            other.len() == 32 && peer@ == #[trigger] x25519_base(other) ==> r@ == x25519_shared(
                other,
                x25519_base(secret@),
            ),
{
    StaticSecret::from(*secret).diffie_hellman(&x25519_dalek::PublicKey::from(*peer)).to_bytes()
}

// ---------------------------------------------------------------------
// HKDF-SHA256 (hkdf, sha2)
// ---------------------------------------------------------------------

/// The 32 output bytes of HKDF-SHA256 with no salt, input key material
/// `ikm` and context `info`.
pub uninterp spec fn hkdf_sha256_32(ikm: Seq<u8>, info: Seq<u8>) -> Seq<u8>;

/// The error `Hkdf::expand` reports for an output length it cannot give.
#[verifier::external_type_specification]
#[verifier::external_body]
pub struct ExInvalidLength(hkdf::InvalidLength);

/// `Hkdf::<Sha256>::new(None, ikm)` followed by `expand(info, &mut okm)`
/// into 32 bytes. Claims the named output, and success: the source
/// refuses only output lengths above 255 * 32 bytes.
#[verifier::external_body]
pub(crate) fn hkdf_sha256_expand(ikm: &[u8; 32], info: &[u8]) -> (r: Result<
    [u8; 32],
    hkdf::InvalidLength,
>)
    ensures
        r is Ok,
        r matches Ok(okm) ==> okm@ == hkdf_sha256_32(ikm@, info@),
{
    let mut okm = [0u8; 32];
    Hkdf::<Sha256>::new(None, ikm).expand(info, &mut okm).map(|_| okm)
}

// ---------------------------------------------------------------------
// ChaCha20-Poly1305 (chacha20poly1305 / aead)
// ---------------------------------------------------------------------

/// The ciphertext followed by its 16-byte tag that ChaCha20-Poly1305
/// gives for a 32-byte key, a 12-byte nonce and a plaintext, with no
/// associated data.
pub uninterp spec fn chacha20poly1305_seal(key: Seq<u8>, nonce: Seq<u8>, plaintext: Seq<u8>) -> Seq<
    u8,
>;

/// What ChaCha20-Poly1305 decryption gives for a key, a nonce and a
/// ciphertext with its tag: the plaintext, or nothing when the tag does
/// not authenticate.
pub uninterp spec fn chacha20poly1305_open(key: Seq<u8>, nonce: Seq<u8>, ciphertext: Seq<u8>) -> Option<
    Seq<u8>,
>;

/// The plaintext lengths the cipher accepts: fewer than `u32::MAX`
/// 64-byte blocks, so that its block counter cannot overflow.
pub open spec fn aead_accepts_len(len: int) -> bool {
    len / 64 < 0xffff_ffff
}

/// `Aead::encrypt` of `ChaCha20Poly1305` with no associated data.
/// Claims: success exactly for the lengths the source accepts, the named
/// ciphertext, and that the tag adds 16 bytes.
#[verifier::external_body]
pub(crate) fn aead_seal(key: &[u8; 32], nonce: &[u8; 12], plaintext: &[u8]) -> (r: Option<Vec<u8>>)
    ensures
        r is Some <==> aead_accepts_len(plaintext@.len() as int),
        r matches Some(c) ==> c@ == chacha20poly1305_seal(key@, nonce@, plaintext@) && c@.len()
            == plaintext@.len() + 16,
{
    ChaCha20Poly1305::new(Key::from_slice(key)).encrypt(Nonce::from_slice(nonce), plaintext).ok()
}

/// `Aead::decrypt` of `ChaCha20Poly1305` with no associated data.
/// Claims: the named result; that a plaintext is 16 bytes shorter than
/// its ciphertext; and AEAD correctness as documented: decrypting what
/// `encrypt` produced under the same key and nonce gives back the
/// plaintext.
#[verifier::external_body]
pub(crate) fn aead_open(key: &[u8; 32], nonce: &[u8; 12], ciphertext: &[u8]) -> (r: Option<Vec<u8>>)
    ensures
        r is Some <==> chacha20poly1305_open(key@, nonce@, ciphertext@) is Some,
        r matches Some(p) ==> chacha20poly1305_open(key@, nonce@, ciphertext@) == Some(p@),
        r matches Some(p) ==> p@.len() + 16 == ciphertext@.len(),
        forall|p: Seq<u8>|
            aead_accepts_len(p.len() as int) && ciphertext@ == #[trigger] chacha20poly1305_seal(key@, nonce@, p)
            ==> r is Some && r->Some_0@ == p,
{
    ChaCha20Poly1305::new(Key::from_slice(key)).decrypt(Nonce::from_slice(nonce), ciphertext).ok()
}

// ---------------------------------------------------------------------
// Hex (hex)
// ---------------------------------------------------------------------

/// The lowercase hex digit for a value below 16.
pub open spec fn hex_digit(v: int) -> char {
    if v < 10 {
        (48 + v) as char
    } else {
        (87 + v) as char
    }
}

/// Lowercase hex encoding: two digits per byte, high nibble first.
pub open spec fn spec_hex_encode(data: Seq<u8>) -> Seq<char> {
    Seq::new(
        2 * data.len(),
        |i: int|
            if i % 2 == 0 {
                hex_digit((data[i / 2] / 16) as int)
            } else {
                hex_digit((data[i / 2] % 16) as int)
            },
    )
}

/// The value of a hex digit, either case; `None` for any other char.
pub open spec fn hex_value(c: char) -> Option<int> {
    let u = c as u32;
    if 48 <= u <= 57 {
        Some(u - 48)
    } else if 97 <= u <= 102 {
        Some(u - 87)
    } else if 65 <= u <= 70 {
        Some(u - 55)
    } else {
        None
    }
}

/// Hex decoding: an even number of hex digits gives one byte per pair,
/// high nibble first; anything else is refused.
pub open spec fn spec_hex_decode(s: Seq<char>) -> Option<Seq<u8>> {
    if s.len() % 2 == 0 && forall|i: int| 0 <= i < s.len() ==> (#[trigger] hex_value(s[i])) is Some {
        Some(
            Seq::new(
                s.len() / 2,
                |i: int| (hex_value(s[2 * i])->0 * 16 + hex_value(s[2 * i + 1])->0) as u8,
            ),
        )
    } else {
        None
    }
}

/// `hex::encode`. Claims the lowercase encoding stated above.
#[verifier::external_body]
pub(crate) fn hex_encode(data: &[u8]) -> (r: String)
    ensures
        r@ == spec_hex_encode(data@),
{
    hex::encode(data)
}

/// `hex::decode`. Claims the decoding stated above, with failure for odd
/// lengths and non-hex characters.
#[verifier::external_body]
pub(crate) fn hex_decode(s: &str) -> (r: Option<Vec<u8>>)
    ensures
        r is Some <==> spec_hex_decode(s@) is Some,
        r matches Some(v) ==> spec_hex_decode(s@) == Some(v@),
{
    hex::decode(s).ok()
}

// ---------------------------------------------------------------------
// std string routines without a vstd specification
// ---------------------------------------------------------------------

/// The chars with the Unicode `White_Space` property, which
/// `char::is_whitespace` tests for.
pub open spec fn is_white_space(c: char) -> bool {
    let u = c as u32;
    ||| 9 <= u <= 13
    ||| u == 32
    ||| u == 0x85
    ||| u == 0xa0
    ||| u == 0x1680
    ||| 0x2000 <= u <= 0x200a
    ||| u == 0x2028
    ||| u == 0x2029
    ||| u == 0x202f
    ||| u == 0x205f
    ||| u == 0x3000
}

/// `s` without its leading white space.
pub open spec fn trim_start(s: Seq<char>) -> Seq<char>
    decreases s.len(),
{
    if s.len() > 0 && is_white_space(s[0]) {
        trim_start(s.drop_first())
    } else {
        s
    }
}

/// `s` without its trailing white space.
pub open spec fn trim_end(s: Seq<char>) -> Seq<char>
    decreases s.len(),
{
    if s.len() > 0 && is_white_space(s.last()) {
        trim_end(s.drop_last())
    } else {
        s
    }
}

/// `s` without leading and trailing white space.
pub open spec fn spec_trim(s: Seq<char>) -> Seq<char> {
    trim_end(trim_start(s))
}

/// `str::trim`. Claims the documented behaviour: leading and trailing
/// `White_Space` chars are removed.
#[verifier::external_body]
pub(crate) fn str_trim(s: &str) -> (r: &str)
    ensures
        r@ == spec_trim(s@),
{
    s.trim()
}

/// `String::from_utf8`. Claims the documented behaviour: success exactly
/// for valid UTF-8, giving the chars those bytes encode.
#[verifier::external_body]
pub(crate) fn string_from_utf8(bytes: Vec<u8>) -> (r: Option<String>)
    ensures
        r is Some <==> valid_utf8(bytes@),
        r matches Some(s) ==> s@ == decode_utf8(bytes@),
{
    String::from_utf8(bytes).ok()
}

// ---------------------------------------------------------------------
// Facts about the specifications above
// ---------------------------------------------------------------------

/// Hex decoding undoes hex encoding.
pub proof fn lemma_hex_roundtrip(data: Seq<u8>)
    ensures
        spec_hex_decode(spec_hex_encode(data)) == Some(data),
{
    let s = spec_hex_encode(data);
    assert forall|i: int| 0 <= i < s.len() implies (#[trigger] hex_value(s[i])) is Some by {
        let v = if i % 2 == 0 {
            data[i / 2] / 16
        } else {
            data[i / 2] % 16
        };
        assert(0 <= v < 16);
    }
    assert(s.len() % 2 == 0);
    let d = spec_hex_decode(s)->0;
    assert forall|i: int| 0 <= i < data.len() implies d[i] == data[i] by {
        assert(s[2 * i] == hex_digit((data[i] / 16) as int));
        assert(s[2 * i + 1] == hex_digit((data[i] % 16) as int));
    }
    assert(d =~= data);
}

/// A string without white space is its own trim.
pub proof fn lemma_trim_without_white_space(s: Seq<char>)
    requires
        forall|i: int| 0 <= i < s.len() ==> !is_white_space(#[trigger] s[i]),
    ensures
        spec_trim(s) == s,
{
    if s.len() > 0 {
        assert(!is_white_space(s[0]));
        assert(!is_white_space(s.last()));
    }
}

/// Hex digits are not white space.
pub proof fn lemma_hex_has_no_white_space(data: Seq<u8>)
    ensures
        forall|i: int|
            0 <= i < spec_hex_encode(data).len() ==> !is_white_space(
                #[trigger] spec_hex_encode(data)[i],
            ),
{
    assert forall|i: int| 0 <= i < spec_hex_encode(data).len() implies !is_white_space(
        #[trigger] spec_hex_encode(data)[i],
    ) by {
        let v = if i % 2 == 0 {
            data[i / 2] / 16
        } else {
            data[i / 2] % 16
        };
        assert(0 <= v < 16);
    }
}

} // verus!
