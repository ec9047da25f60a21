//! Per-conversation session state.
//!
//! Create one session per recipient: the cell key is specific to the
//! pair (sender's ephemeral key, recipient's identity key) it comes from.

use vstd::prelude::*;

use crate::crypto::keys::{KeyPair, PublicKey};
use crate::error::VeilError;
use crate::primitives::{hkdf_sha256_32, os_rng, x25519_base, x25519_shared};

verus! {

/// HKDF context that binds a session key to sender-to-recipient cell
/// encryption.
pub const SESSION_KEY_CONTEXT: &'static str = "veil-sdk-session-v1";

/// The session key for a Diffie-Hellman output.
pub open spec fn spec_session_key(shared: Seq<u8>) -> Seq<u8> {
    hkdf_sha256_32(shared, SESSION_KEY_CONTEXT@.map_values(|c: char| c as u8))
}

/// The bytes of the session-key context.
pub(crate) fn session_context() -> (r: &'static [u8])
    ensures
        r@ == SESSION_KEY_CONTEXT@.map_values(|c: char| c as u8),
{
    proof {
        reveal_strlit("veil-sdk-session-v1");
    }
    let r = SESSION_KEY_CONTEXT.as_bytes();
    proof {
        vstd::string::is_ascii_spec_bytes(SESSION_KEY_CONTEXT);
        assert(r@ =~= SESSION_KEY_CONTEXT@.map_values(|c: char| c as u8));
    }
    r
}

pub struct Session {
    keypair: KeyPair,
    /// The symmetric key that encrypts this session's cells.
    cell_key: [u8; 32],
}

impl Session {
    /// The session's ephemeral private key.
    pub closed spec fn secret(&self) -> Seq<u8> {
        self.keypair.secret()
    }

    /// The cell key, as bytes.
    pub closed spec fn key(&self) -> Seq<u8> {
        self.cell_key@
    }

    /// The session's ephemeral public key.
    pub open spec fn public(&self) -> Seq<u8> {
        x25519_base(self.secret())
    }

    /// Establishes a session with the recipient whose long-term public key
    /// is `recipient_public`: a fresh ephemeral key pair, X25519 and
    /// HKDF-SHA256 give the cell key.
    ///
    /// The recipient derives the identical key from its private key and
    /// this session's [`Session::public_key`].
    pub fn establish(recipient_public: &PublicKey) -> (r: Result<Self, VeilError>)
        ensures
            r matches Ok(s) && s.secret().len() == 32 && s.public().len() == 32 && s.key()
                == spec_session_key(
                x25519_shared(s.secret(), recipient_public@),
            ) && forall|other: Seq<u8>|
                other.len() == 32 && recipient_public@ == #[trigger] x25519_base(other)
                    ==> s.key() == spec_session_key(x25519_shared(other, s.public())),
    {
        let mut rng = os_rng();
        let keypair = KeyPair::generate(&mut rng);
        let shared = keypair.diffie_hellman(recipient_public);
        let cell_key = match shared.derive_key(session_context()) {
            Ok(k) => k,
            Err(e) => {
                return Err(e);
            },
        };
        Ok(Session { keypair, cell_key })
    }

    /// The symmetric key that encrypts this session's cells.
    pub fn cell_key(&self) -> (r: &[u8; 32])
        ensures
            r@ == self.key(),
    {
        &self.cell_key
    }

    /// This session's ephemeral public key, for the recipient.
    pub fn public_key(&self) -> (r: PublicKey)
        ensures
            r@ == self.public(),
    {
        self.keypair.public_key()
    }
}

} // verus!
