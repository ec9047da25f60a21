//! Central error type for the cell layer and its cryptography.
//!
//! Variants are specific enough to debug locally but never carry
//! information across a trust boundary that could help an attacker
//! (see [`VeilError::DecryptionFailed`] in particular).

use vstd::prelude::*;

verus! {

/// Convenience alias used throughout the cell layer.
pub type VeilResult<T> = Result<T, VeilError>;

#[derive(Debug)]
pub enum VeilError {
    PayloadTooLarge { len: usize, max: usize },
    InvalidSequence { seq_index: u16, seq_total: u16 },
    UnsupportedVersion(u8),
    InvalidCellType(u8),
    MessageTooLarge { len: usize, max: usize },
    IncompleteMessage { received: usize, expected: usize },
    MismatchedMessageId,
    EncryptionFailed,
    /// Deliberately vague: an AEAD decryption can fail because the key is
    /// wrong, the ciphertext was corrupted in transit, or it was forged
    /// by an attacker. Nobody can tell these cases apart from the error
    /// alone, so the error offers no oracle to probe the network with.
    DecryptionFailed,
    InvalidKey(&'static str),
}

} // verus!
