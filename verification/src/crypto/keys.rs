//! X25519 key pairs, Diffie-Hellman shared secrets and HKDF key
//! derivation.

use vstd::prelude::*;
use rand::rngs::OsRng;

use crate::error::{VeilError, VeilResult};
use crate::primitives::{
    hex_decode, hex_encode, hkdf_sha256_32, hkdf_sha256_expand, lemma_hex_has_no_white_space,
    lemma_hex_roundtrip, lemma_trim_without_white_space, random_static_secret, spec_hex_decode,
    spec_hex_encode, spec_trim, str_trim, x25519_base, x25519_diffie_hellman,
    x25519_public_from_secret, x25519_shared,
};

verus! {

/// An X25519 public key: 32 bytes, safe to transmit to peers.
#[derive(Debug, Clone, Copy, PartialEq, Eq)]
pub struct PublicKey(pub [u8; 32]);

impl View for PublicKey {
    type V = Seq<u8>;

    open spec fn view(&self) -> Seq<u8> {
        self.0@
    }
}

impl PublicKey {
    /// The key's 32 bytes.
    pub fn to_bytes(&self) -> (r: [u8; 32])
        ensures
            r@ == self@,
    {
        self.0
    }

    /// The key's 32 bytes, borrowed.
    pub fn as_bytes(&self) -> (r: &[u8; 32])
        ensures
            r@ == self@,
    {
        &self.0
    }
}

/// A long-term or ephemeral X25519 key pair. The private key never
/// leaves the value: only public keys and Diffie-Hellman outputs do.
pub struct KeyPair {
    secret: [u8; 32],
    public: PublicKey,
}

/// What `KeyPair::from_hex` gives for a string: the 32 secret bytes, or
/// the error for a string that is not hex or not 32 bytes long once
/// leading and trailing white space is removed.
pub open spec fn spec_secret_from_hex(s: Seq<char>) -> Result<Seq<u8>, VeilError> {
    match spec_hex_decode(spec_trim(s)) {
        None => Err(VeilError::InvalidKey("secret key is not valid hex")),
        Some(b) => if b.len() != 32 {
            Err(VeilError::InvalidKey("secret key must decode to exactly 32 bytes"))
        } else {
            Ok(b)
        },
    }
}

impl KeyPair {
    #[verifier::type_invariant]
    closed spec fn public_matches_secret(self) -> bool {
        self.public@ == x25519_base(self.secret@)
    }

    /// The 32 private-key bytes.
    pub closed spec fn secret(&self) -> Seq<u8> {
        self.secret@
    }

    /// The public key, which X25519 derives from the private key.
    pub open spec fn public(&self) -> Seq<u8> {
        x25519_base(self.secret())
    }

    /// Generates a new random key pair from a cryptographically secure RNG.
    pub fn generate(rng: &mut OsRng) -> (r: Self)
        ensures
            r.secret().len() == 32,
            r.public().len() == 32,
    {
        let secret = random_static_secret(rng);
        let public = PublicKey(x25519_public_from_secret(&secret));
        KeyPair { secret, public }
    }

    /// This key pair's public key.
    pub fn public_key(&self) -> (r: PublicKey)
        ensures
            r@ == self.public(),
    {
        proof {
            use_type_invariant(self);
        }
        self.public
    }

    /// Diffie-Hellman with a peer's public key.
    ///
    /// Both sides of an exchange reach the same secret: when the peer key
    /// belongs to a secret `other`, the result is what `other` computes
    /// against this key pair's public key.
    pub fn diffie_hellman(&self, peer_public: &PublicKey) -> (r: SharedSecret)
        ensures
            r@ == x25519_shared(self.secret(), peer_public@),
            forall|other: Seq<u8>|
                other.len() == 32 && peer_public@ == #[trigger] x25519_base(other) ==> r@
                    == x25519_shared(other, self.public()),
    {
        SharedSecret(x25519_diffie_hellman(&self.secret, &peer_public.0))
    }

    /// The private key as lowercase hex, so that an identity can be
    /// persisted and survive a restart.
    pub fn to_hex(&self) -> (r: String)
        ensures
            r@ == spec_hex_encode(self.secret()),
    {
        hex_encode(&self.secret)
    }

    /// Rebuilds a key pair from a string produced by [`KeyPair::to_hex`].
    pub fn from_hex(hex_str: &str) -> (r: VeilResult<Self>)
        ensures
            match spec_secret_from_hex(hex_str@) {
                Ok(b) => r matches Ok(k) && k.secret() == b,
                Err(e) => r matches Err(f) && f == e,
            },
    {
        let bytes = match hex_decode(str_trim(hex_str)) {
            Some(b) => b,
            None => {
                return Err(VeilError::InvalidKey("secret key is not valid hex"));
            },
        };
        if bytes.len() != 32 {
            return Err(VeilError::InvalidKey("secret key must decode to exactly 32 bytes"));
        }
        let mut secret = [0u8; 32];
        let mut i: usize = 0;
        while i < 32
            invariant
                i <= 32,
                bytes@.len() == 32,
                forall|j: int| 0 <= j < i ==> secret@[j] == bytes@[j],
            decreases 32 - i,
        {
            secret[i] = bytes[i];
            i = i + 1;
        }
        assert(secret@ =~= bytes@);
        let public = PublicKey(x25519_public_from_secret(&secret));
        Ok(KeyPair { secret, public })
    }
}

/// Restoring a key pair from its hex form gives back the same private
/// key, and so the same identity.
pub proof fn lemma_secret_hex_roundtrip(secret: Seq<u8>)
    requires
        secret.len() == 32,
    ensures
        spec_secret_from_hex(spec_hex_encode(secret)) == Ok::<Seq<u8>, VeilError>(secret),
{
    lemma_hex_has_no_white_space(secret);
    lemma_trim_without_white_space(spec_hex_encode(secret));
    lemma_hex_roundtrip(secret);
}

/// A raw 32-byte Diffie-Hellman output. Not `Clone` or `Copy`: it is
/// key material that should not outlive its purpose.
pub struct SharedSecret([u8; 32]);

impl View for SharedSecret {
    type V = Seq<u8>;

    closed spec fn view(&self) -> Seq<u8> {
        self.0@
    }
}

impl SharedSecret {
    /// Derives a 32-byte symmetric key with HKDF-SHA256, bound to
    /// `context` so that keys for different purposes are independent.
    pub fn derive_key(&self, context: &[u8]) -> (r: VeilResult<[u8; 32]>)
        ensures
            r matches Ok(k) && k@ == hkdf_sha256_32(self@, context@),
    {
        match hkdf_sha256_expand(&self.0, context) {
            Ok(okm) => Ok(okm),
            Err(_) => Err(VeilError::InvalidKey("HKDF expand failed: invalid output length")),
        }
    }
}

/// A public key from its 32-byte wire form, as received from a peer.
pub fn public_key_from_bytes(bytes: [u8; 32]) -> (r: PublicKey)
    ensures
        r@ == bytes@,
{
    PublicKey(bytes)
}

/// A public key as lowercase hex, for display or for a topology file.
pub fn public_key_to_hex(public: &PublicKey) -> (r: String)
    ensures
        r@ == spec_hex_encode(public@),
{
    hex_encode(&public.0)
}

} // verus!
