//! Cells, cell encryption, key pairs, fragmentation and reassembly.

use rand::rngs::OsRng;
use veil::cell::CellType;
use veil::crypto::{decrypt_cell, encrypt_cell, public_key_from_bytes, public_key_to_hex, KeyPair};
use veil::crypto::{ENCRYPTED_CELL_SIZE, NONCE_SIZE};
use veil::{fragment_message, Cell, Reassembler, VeilError, CELL_SIZE, MAX_MESSAGE_SIZE, PAYLOAD_CAPACITY};

// ---------------------------------------------------------------------
// Cells
// ---------------------------------------------------------------------

#[test]
fn data_cell_roundtrip_preserves_payload() {
    let id = [1u8; 16];
    let cell = Cell::new_data(id, 0, 1, b"hello").unwrap();
    let bytes = cell.to_bytes();
    let parsed = Cell::from_bytes(&bytes).unwrap();
    assert_eq!(parsed.payload(), b"hello");
    assert_eq!(parsed.message_id(), id);
}

#[test]
fn oversized_payload_is_rejected() {
    let data = vec![0u8; PAYLOAD_CAPACITY + 1];
    let result = Cell::new_data([0u8; 16], 0, 1, &data);
    assert!(matches!(result, Err(VeilError::PayloadTooLarge { .. })));
}

#[test]
fn invalid_sequence_is_rejected() {
    let result = Cell::new_data([0u8; 16], 5, 3, b"x");
    assert!(matches!(result, Err(VeilError::InvalidSequence { .. })));
}

#[test]
fn every_cell_serializes_to_exactly_cell_size() {
    let data_cell = Cell::new_data([0u8; 16], 0, 1, b"short").unwrap();
    let dummy_cell = Cell::new_dummy(&mut OsRng);
    assert_eq!(data_cell.to_bytes().len(), CELL_SIZE);
    assert_eq!(dummy_cell.to_bytes().len(), CELL_SIZE);
}

#[test]
fn cell_wire_layout_is_exact() {
    let cell = Cell::new_data([0xabu8; 16], 2, 5, b"hi").unwrap();
    let bytes = cell.to_bytes();
    assert_eq!(bytes[0], 1, "protocol version");
    assert_eq!(bytes[1], 0, "data cell type byte");
    assert_eq!(&bytes[2..18], &[0xabu8; 16]);
    assert_eq!(&bytes[18..20], &[0, 2]);
    assert_eq!(&bytes[20..22], &[0, 5]);
    assert_eq!(&bytes[22..24], &[0, 2]);
    assert_eq!(&bytes[24..26], b"hi");
    assert!(bytes[26..].iter().all(|b| *b == 0));
    assert_eq!(cell.seq_index(), 2);
    assert_eq!(cell.seq_total(), 5);
    assert_eq!(cell.cell_type(), CellType::Data);
}

#[test]
fn full_payload_is_accepted() {
    let data = vec![3u8; PAYLOAD_CAPACITY];
    let cell = Cell::new_data([0u8; 16], 0, 1, &data).unwrap();
    assert_eq!(cell.payload(), data.as_slice());
}

#[test]
fn zero_total_is_an_invalid_sequence() {
    let result = Cell::new_data([0u8; 16], 0, 0, b"x");
    assert!(matches!(
        result,
        Err(VeilError::InvalidSequence { seq_index: 0, seq_total: 0 })
    ));
}

#[test]
fn parsing_rejects_each_bad_header_field() {
    let good = Cell::new_data([0u8; 16], 0, 1, b"ok").unwrap().to_bytes();

    let mut bad_version = good;
    bad_version[0] = 9;
    assert!(matches!(Cell::from_bytes(&bad_version), Err(VeilError::UnsupportedVersion(9))));

    let mut bad_type = good;
    bad_type[1] = 7;
    assert!(matches!(Cell::from_bytes(&bad_type), Err(VeilError::InvalidCellType(7))));

    let mut bad_len = good;
    bad_len[22] = 0xff;
    bad_len[23] = 0xff;
    assert!(matches!(
        Cell::from_bytes(&bad_len),
        Err(VeilError::PayloadTooLarge { len: 65535, max: 488 })
    ));

    let mut bad_seq = good;
    bad_seq[19] = 4;
    assert!(matches!(
        Cell::from_bytes(&bad_seq),
        Err(VeilError::InvalidSequence { seq_index: 4, seq_total: 1 })
    ));
}

#[test]
fn dummy_cell_roundtrips_as_a_dummy() {
    let dummy = Cell::new_dummy(&mut OsRng);
    assert_eq!(dummy.cell_type(), CellType::Dummy);
    assert_eq!(dummy.payload().len(), PAYLOAD_CAPACITY);
    let parsed = Cell::from_bytes(&dummy.to_bytes()).unwrap();
    assert_eq!(parsed.cell_type(), CellType::Dummy);
    assert_eq!(parsed.payload(), dummy.payload());
    assert_eq!(parsed.message_id(), dummy.message_id());
}

// ---------------------------------------------------------------------
// Cell encryption
// ---------------------------------------------------------------------

#[test]
fn encrypt_then_decrypt_recovers_original_cell() {
    let key = [42u8; 32];
    let cell = Cell::new_data([1u8; 16], 0, 1, b"veil payload").unwrap();

    let encrypted = encrypt_cell(&key, &cell).unwrap();
    let decrypted = decrypt_cell(&key, &encrypted).unwrap();

    assert_eq!(decrypted.payload(), b"veil payload");
}

#[test]
fn wrong_key_fails_to_decrypt() {
    let key_a = [1u8; 32];
    let key_b = [2u8; 32];
    let cell = Cell::new_data([0u8; 16], 0, 1, b"secret").unwrap();

    let encrypted = encrypt_cell(&key_a, &cell).unwrap();
    let result = decrypt_cell(&key_b, &encrypted);

    assert!(matches!(result, Err(VeilError::DecryptionFailed)));
}

#[test]
fn tampered_ciphertext_fails_authentication() {
    let key = [9u8; 32];
    let cell = Cell::new_data([0u8; 16], 0, 1, b"integrity check").unwrap();

    let mut encrypted = encrypt_cell(&key, &cell).unwrap();
    encrypted[NONCE_SIZE + 5] ^= 0x01;

    let result = decrypt_cell(&key, &encrypted);
    assert!(matches!(result, Err(VeilError::DecryptionFailed)));
}

#[test]
fn repeated_encryption_of_same_cell_produces_different_ciphertext() {
    let key = [5u8; 32];
    let cell = Cell::new_data([0u8; 16], 0, 1, b"same content").unwrap();

    let first = encrypt_cell(&key, &cell).unwrap();
    let second = encrypt_cell(&key, &cell).unwrap();

    assert_ne!(first, second, "nonces must differ, so ciphertexts must differ");
}

#[test]
fn encrypted_cell_has_the_advertised_size_and_hides_the_plaintext() {
    let key = [8u8; 32];
    let cell = Cell::new_data([0u8; 16], 0, 1, b"plaintext marker").unwrap();
    let encrypted = encrypt_cell(&key, &cell).unwrap();
    assert_eq!(encrypted.len(), ENCRYPTED_CELL_SIZE);
    assert_eq!(ENCRYPTED_CELL_SIZE, 12 + 512 + 16);
    let plain = cell.to_bytes();
    assert_ne!(&encrypted[NONCE_SIZE..NONCE_SIZE + CELL_SIZE], &plain[..]);
}

// ---------------------------------------------------------------------
// Key pairs
// ---------------------------------------------------------------------

#[test]
fn both_sides_derive_identical_shared_key() {
    let mut rng = OsRng;
    let alice = KeyPair::generate(&mut rng);
    let bob = KeyPair::generate(&mut rng);

    let shared_alice = alice.diffie_hellman(&bob.public_key());
    let shared_bob = bob.diffie_hellman(&alice.public_key());

    let key_alice = shared_alice.derive_key(b"test-context").unwrap();
    let key_bob = shared_bob.derive_key(b"test-context").unwrap();

    assert_eq!(key_alice, key_bob);
}

#[test]
fn different_contexts_derive_different_keys() {
    let mut rng = OsRng;
    let alice = KeyPair::generate(&mut rng);
    let bob = KeyPair::generate(&mut rng);
    let shared = alice.diffie_hellman(&bob.public_key());

    let key_a = shared.derive_key(b"context-a").unwrap();
    let key_b = shared.derive_key(b"context-b").unwrap();

    assert_ne!(key_a, key_b);
}

#[test]
fn different_keypairs_derive_different_shared_secrets() {
    let mut rng = OsRng;
    let alice = KeyPair::generate(&mut rng);
    let bob = KeyPair::generate(&mut rng);
    let mallory = KeyPair::generate(&mut rng);

    let alice_bob = alice.diffie_hellman(&bob.public_key()).derive_key(b"ctx").unwrap();
    let alice_mallory = alice.diffie_hellman(&mallory.public_key()).derive_key(b"ctx").unwrap();

    assert_ne!(alice_bob, alice_mallory);
}

#[test]
fn hex_roundtrip_preserves_the_same_identity() {
    let mut rng = OsRng;
    let original = KeyPair::generate(&mut rng);
    let hex = original.to_hex();

    let restored = KeyPair::from_hex(&hex).unwrap();

    assert_eq!(original.public_key().as_bytes(), restored.public_key().as_bytes());
}

#[test]
fn restored_keypair_derives_identical_shared_secrets() {
    let mut rng = OsRng;
    let original = KeyPair::generate(&mut rng);
    let peer = KeyPair::generate(&mut rng);
    let hex = original.to_hex();
    let restored = KeyPair::from_hex(&hex).unwrap();

    let key_original = original.diffie_hellman(&peer.public_key()).derive_key(b"ctx").unwrap();
    let key_restored = restored.diffie_hellman(&peer.public_key()).derive_key(b"ctx").unwrap();

    assert_eq!(
        key_original, key_restored,
        "a restored identity must behave identically to the original"
    );
}

#[test]
fn invalid_hex_is_rejected() {
    assert!(KeyPair::from_hex("this is not hex").is_err());
}

#[test]
fn wrong_length_hex_is_rejected() {
    assert!(KeyPair::from_hex("aabbcc").is_err());
}

#[test]
fn hex_key_errors_name_their_reason() {
    assert!(matches!(
        KeyPair::from_hex("zz"),
        Err(VeilError::InvalidKey("secret key is not valid hex"))
    ));
    assert!(matches!(
        KeyPair::from_hex("aabbcc"),
        Err(VeilError::InvalidKey("secret key must decode to exactly 32 bytes"))
    ));
}

#[test]
fn hex_key_may_carry_surrounding_white_space() {
    let original = KeyPair::generate(&mut OsRng);
    let padded = format!("  {}\n", original.to_hex());
    let restored = KeyPair::from_hex(&padded).unwrap();
    assert_eq!(original.public_key().as_bytes(), restored.public_key().as_bytes());
}

#[test]
fn secret_hex_is_lowercase_and_sixty_four_digits() {
    let kp = KeyPair::generate(&mut OsRng);
    let hex = kp.to_hex();
    assert_eq!(hex.len(), 64);
    assert!(hex.chars().all(|c| c.is_ascii_digit() || ('a'..='f').contains(&c)));
}

#[test]
fn public_key_hex_is_exact() {
    let mut bytes = [0u8; 32];
    bytes[0] = 0x0f;
    bytes[31] = 0xa0;
    let key = public_key_from_bytes(bytes);
    let hex = public_key_to_hex(&key);
    assert_eq!(&hex[0..2], "0f");
    assert_eq!(&hex[62..64], "a0");
    assert_eq!(hex.len(), 64);
    assert_eq!(key.to_bytes(), bytes);
}

// ---------------------------------------------------------------------
// Fragmentation and reassembly
// ---------------------------------------------------------------------

#[test]
fn single_cell_for_small_message() {
    let mut rng = OsRng;
    let cells = fragment_message(b"tiny", &mut rng).unwrap();
    assert_eq!(cells.len(), 1);
}

#[test]
fn multi_cell_for_large_message() {
    let message = vec![7u8; PAYLOAD_CAPACITY * 3 + 10];
    let mut rng = OsRng;
    let cells = fragment_message(&message, &mut rng).unwrap();
    assert_eq!(cells.len(), 4);
    let id = cells[0].message_id();
    assert!(cells.iter().all(|c| c.message_id() == id));
}

#[test]
fn empty_message_rejected() {
    let mut rng = OsRng;
    assert!(fragment_message(&[], &mut rng).is_err());
}

#[test]
fn exact_multiple_of_capacity_does_not_produce_empty_trailing_cell() {
    let message = vec![1u8; PAYLOAD_CAPACITY * 2];
    let mut rng = OsRng;
    let cells = fragment_message(&message, &mut rng).unwrap();
    assert_eq!(cells.len(), 2);
}

#[test]
fn fragments_are_numbered_and_sized_in_order() {
    let message: Vec<u8> = (0..(PAYLOAD_CAPACITY * 2 + 5)).map(|i| (i % 251) as u8).collect();
    let cells = fragment_message(&message, &mut OsRng).unwrap();
    assert_eq!(cells.len(), 3);
    for (i, cell) in cells.iter().enumerate() {
        assert_eq!(cell.seq_index() as usize, i);
        assert_eq!(cell.seq_total(), 3);
        assert_eq!(cell.cell_type(), CellType::Data);
    }
    assert_eq!(cells[0].payload(), &message[..PAYLOAD_CAPACITY]);
    assert_eq!(cells[1].payload(), &message[PAYLOAD_CAPACITY..2 * PAYLOAD_CAPACITY]);
    assert_eq!(cells[2].payload(), &message[2 * PAYLOAD_CAPACITY..]);
}

#[test]
fn oversized_message_is_rejected() {
    let message = vec![0u8; MAX_MESSAGE_SIZE + 1];
    let result = fragment_message(&message, &mut OsRng);
    assert!(matches!(
        result,
        Err(VeilError::MessageTooLarge { len, max }) if len == MAX_MESSAGE_SIZE + 1 && max == MAX_MESSAGE_SIZE
    ));
}

#[test]
fn completes_after_all_fragments_received() {
    let id = [3u8; 16];
    let mut reassembler = Reassembler::new();

    let c0 = Cell::new_data(id, 0, 2, b"hel").unwrap();
    let c1 = Cell::new_data(id, 1, 2, b"lo").unwrap();

    assert!(reassembler.insert(c0).unwrap().is_none());
    let result = reassembler.insert(c1).unwrap();
    assert_eq!(result.unwrap(), b"hello");
}

#[test]
fn duplicate_cell_does_not_corrupt_state() {
    let id = [4u8; 16];
    let mut reassembler = Reassembler::new();

    let c0 = Cell::new_data(id, 0, 2, b"a").unwrap();
    let c0_dup = Cell::new_data(id, 0, 2, b"a").unwrap();
    let c1 = Cell::new_data(id, 1, 2, b"b").unwrap();

    reassembler.insert(c0).unwrap();
    reassembler.insert(c0_dup).unwrap();
    let result = reassembler.insert(c1).unwrap();
    assert_eq!(result.unwrap(), b"ab");
}

#[test]
fn mismatched_seq_total_is_rejected() {
    let id = [5u8; 16];
    let mut reassembler = Reassembler::new();

    let c0 = Cell::new_data(id, 0, 2, b"a").unwrap();
    let c1 = Cell::new_data(id, 0, 3, b"a").unwrap();

    reassembler.insert(c0).unwrap();
    let result = reassembler.insert(c1);
    assert!(matches!(result, Err(VeilError::MismatchedMessageId)));
}

#[test]
fn evict_removes_pending_message() {
    let id = [6u8; 16];
    let mut reassembler = Reassembler::new();
    reassembler.insert(Cell::new_data(id, 0, 2, b"a").unwrap()).unwrap();
    assert_eq!(reassembler.pending_count(), 1);
    reassembler.evict(&id);
    assert_eq!(reassembler.pending_count(), 0);
}

#[test]
fn repeated_position_keeps_the_first_fragment() {
    let id = [7u8; 16];
    let mut reassembler = Reassembler::new();
    reassembler.insert(Cell::new_data(id, 0, 2, b"first").unwrap()).unwrap();
    reassembler.insert(Cell::new_data(id, 0, 2, b"second").unwrap()).unwrap();
    let done = reassembler.insert(Cell::new_data(id, 1, 2, b"!").unwrap()).unwrap();
    assert_eq!(done.unwrap(), b"first!");
    assert_eq!(reassembler.pending_count(), 0);
}

#[test]
fn repeated_fragment_reports_incomplete_and_keeps_state() {
    let id = [8u8; 16];
    let mut reassembler = Reassembler::new();
    assert!(reassembler.insert(Cell::new_data(id, 1, 3, b"b").unwrap()).unwrap().is_none());
    for _ in 0..3 {
        assert!(reassembler.insert(Cell::new_data(id, 1, 3, b"other").unwrap()).unwrap().is_none());
        assert_eq!(reassembler.pending_count(), 1);
    }
    assert!(reassembler.insert(Cell::new_data(id, 0, 3, b"a").unwrap()).unwrap().is_none());
    assert_eq!(reassembler.insert(Cell::new_data(id, 2, 3, b"c").unwrap()).unwrap().unwrap(), b"abc");
    assert_eq!(reassembler.pending_count(), 0);
}

#[test]
fn interleaved_messages_complete_independently() {
    let a = [1u8; 16];
    let b = [2u8; 16];
    let mut reassembler = Reassembler::new();
    assert!(reassembler.insert(Cell::new_data(a, 1, 2, b"A2").unwrap()).unwrap().is_none());
    assert!(reassembler.insert(Cell::new_data(b, 0, 2, b"B1").unwrap()).unwrap().is_none());
    assert_eq!(reassembler.pending_count(), 2);
    assert_eq!(reassembler.insert(Cell::new_data(a, 0, 2, b"A1").unwrap()).unwrap().unwrap(), b"A1A2");
    assert_eq!(reassembler.pending_count(), 1);
    assert_eq!(reassembler.insert(Cell::new_data(b, 1, 2, b"B2").unwrap()).unwrap().unwrap(), b"B1B2");
    assert_eq!(reassembler.pending_count(), 0);
}

#[test]
fn evicting_an_unknown_id_changes_nothing() {
    let mut reassembler = Reassembler::default();
    reassembler.insert(Cell::new_data([1u8; 16], 0, 3, b"x").unwrap()).unwrap();
    reassembler.evict(&[9u8; 16]);
    assert_eq!(reassembler.pending_count(), 1);
}

#[test]
fn fragment_and_reassemble_roundtrip() {
    let message = b"The quick brown fox jumps over the lazy dog, repeated for length. ".repeat(20);

    let mut rng = OsRng;
    let cells = fragment_message(&message, &mut rng).expect("fragmentation should succeed");
    assert!(cells.len() > 1, "message should span multiple cells");

    let mut reassembler = Reassembler::new();
    let mut output = None;
    for cell in cells {
        if let Some(msg) = reassembler.insert(cell).expect("insert should succeed") {
            output = Some(msg);
        }
    }

    assert_eq!(output.expect("message should be complete"), message);
}

#[test]
fn reassembly_handles_out_of_order_cells() {
    let message = b"out of order delivery test payload spanning several cells of data".repeat(30);
    let mut rng = OsRng;
    let mut cells = fragment_message(&message, &mut rng).unwrap();

    cells.reverse();

    let mut reassembler = Reassembler::new();
    let mut output = None;
    for cell in cells {
        if let Some(msg) = reassembler.insert(cell).unwrap() {
            output = Some(msg);
        }
    }

    assert_eq!(output.unwrap(), message);
}

#[test]
fn single_cell_message_roundtrip() {
    let message = b"short message";
    let mut rng = OsRng;
    let cells = fragment_message(message, &mut rng).unwrap();
    assert_eq!(cells.len(), 1);

    let mut reassembler = Reassembler::new();
    let result = reassembler.insert(cells.into_iter().next().unwrap()).unwrap();
    assert_eq!(result.unwrap(), message);
}

#[test]
fn empty_message_is_rejected() {
    let mut rng = OsRng;
    assert!(fragment_message(&[], &mut rng).is_err());
}

#[test]
fn encrypt_decrypt_roundtrip_between_two_parties() {
    let mut rng = OsRng;
    let alice = KeyPair::generate(&mut rng);
    let bob = KeyPair::generate(&mut rng);

    let shared_a = alice.diffie_hellman(&bob.public_key());
    let shared_b = bob.diffie_hellman(&alice.public_key());

    let key_a = shared_a.derive_key(b"veil-cell-encryption-v1").unwrap();
    let key_b = shared_b.derive_key(b"veil-cell-encryption-v1").unwrap();
    assert_eq!(key_a, key_b, "both sides must derive an identical key");

    let cell = Cell::new_data([7u8; 16], 0, 1, b"hello veil").unwrap();

    let encrypted = encrypt_cell(&key_a, &cell).unwrap();
    let decrypted = decrypt_cell(&key_b, &encrypted).unwrap();

    assert_eq!(decrypted.payload(), b"hello veil");
}

#[test]
fn decryption_fails_with_wrong_key() {
    let key_a = [1u8; 32];
    let key_b = [2u8; 32];

    let cell = Cell::new_data([0u8; 16], 0, 1, b"secret").unwrap();
    let encrypted = encrypt_cell(&key_a, &cell).unwrap();

    assert!(decrypt_cell(&key_b, &encrypted).is_err());
}

#[test]
fn dummy_and_data_cells_are_structurally_identical_in_size() {
    let mut rng = OsRng;
    let dummy = Cell::new_dummy(&mut rng);
    let real = Cell::new_data([9u8; 16], 0, 1, b"data").unwrap();

    assert_eq!(dummy.to_bytes().len(), real.to_bytes().len());
}

#[test]
fn public_key_is_derived_from_the_secret() {
    let kp = KeyPair::generate(&mut OsRng);
    assert_ne!(kp.to_hex(), public_key_to_hex(&kp.public_key()));
}

#[test]
fn known_x25519_identity_has_the_published_public_key() {
    let alice = KeyPair::from_hex("77076d0a7318a57d3c16c17251b26645df4c2f87ebc0992ab177fba51db92c2a").unwrap();
    assert_eq!(
        public_key_to_hex(&alice.public_key()),
        "8520f0098930a754748b7ddcb43ef75a0dbf3a0d26381af4eba4a98eaa9b4e6a"
    );
    let bob = KeyPair::from_hex("5dab087e624a8a4b79e17f8b83800ee66f3bb1292618b6fd1c2f8b27ff88e0eb").unwrap();
    assert_eq!(
        public_key_to_hex(&bob.public_key()),
        "de9edb7d7b7dc1b4d35b61c2ece435373f8343c85b78674dadfc7e146f882b4f"
    );
    let k1 = alice.diffie_hellman(&bob.public_key()).derive_key(b"ctx").unwrap();
    let k2 = bob.diffie_hellman(&alice.public_key()).derive_key(b"ctx").unwrap();
    assert_eq!(k1, k2);
}
