//! Onion layers, frames, relay decisions, mailboxes and the mailbox wire
//! format.

use rand::rngs::OsRng;
use veil::crypto::KeyPair;
use veil::forwarding::{
    build_onion_layer, frame_body_length, frame_header, peel_onion_layer, OnionError, OnionPayload,
};
use veil::mailbox::MailboxQueue;
use veil::metrics::Metrics;
use veil::pull_listener::{
    encode_describe_response, encode_pull_response, parse_describe_response, parse_pull_response,
    parse_request, MailboxRequest, RelayIdentity, WireError, DESCRIBE_REQUEST_BYTE, PULL_REQUEST_BYTE,
};
use veil::relay::{admit_connection, default_max_connections, handle_frame, mailbox_port, RelayAction};

// ---------------------------------------------------------------------
// Onion layers
// ---------------------------------------------------------------------

#[test]
fn forward_layer_roundtrip() {
    let mut rng = OsRng;
    let relay = KeyPair::generate(&mut rng);

    let payload = OnionPayload::Forward {
        next_hop: "127.0.0.1:9002".to_string(),
        body: b"opaque inner frame".to_vec(),
    };
    let frame = build_onion_layer(&relay.public_key(), &payload).unwrap();
    let peeled = peel_onion_layer(&relay, &frame).unwrap();

    match peeled {
        OnionPayload::Forward { next_hop, body } => {
            assert_eq!(next_hop, "127.0.0.1:9002");
            assert_eq!(body, b"opaque inner frame");
        }
        _ => panic!("expected Forward variant"),
    }
}

#[test]
fn deliver_layer_roundtrip() {
    let mut rng = OsRng;
    let relay = KeyPair::generate(&mut rng);

    let payload = OnionPayload::Deliver { body: b"final cell bytes".to_vec() };
    let frame = build_onion_layer(&relay.public_key(), &payload).unwrap();
    let peeled = peel_onion_layer(&relay, &frame).unwrap();

    match peeled {
        OnionPayload::Deliver { body } => assert_eq!(body, b"final cell bytes"),
        _ => panic!("expected Deliver variant"),
    }
}

#[test]
fn wrong_relay_key_fails_to_peel() {
    let mut rng = OsRng;
    let relay = KeyPair::generate(&mut rng);
    let attacker = KeyPair::generate(&mut rng);

    let payload = OnionPayload::Deliver { body: b"secret".to_vec() };
    let frame = build_onion_layer(&relay.public_key(), &payload).unwrap();

    assert!(peel_onion_layer(&attacker, &frame).is_err());
}

#[test]
fn short_frames_are_refused_before_decryption() {
    let relay = KeyPair::generate(&mut OsRng);
    assert!(matches!(peel_onion_layer(&relay, &[0u8; 59]), Err(OnionError::FrameTooShort)));
    assert!(matches!(peel_onion_layer(&relay, &[0u8; 60]), Err(OnionError::DecryptionFailed)));
}

#[test]
fn onion_layer_has_the_exact_size() {
    let relay = KeyPair::generate(&mut OsRng);
    let frame = build_onion_layer(
        &relay.public_key(),
        &OnionPayload::Forward { next_hop: "ab".to_string(), body: vec![1, 2, 3] },
    )
    .unwrap();
    assert_eq!(frame.len(), 32 + 12 + 16 + 1 + 2 + 2 + 3);
}

#[test]
fn frame_roundtrip_over_a_pipe() {
    let body = b"hello relay";
    let mut wire = frame_header(body).to_vec();
    wire.extend_from_slice(body);
    let header: [u8; 4] = [wire[0], wire[1], wire[2], wire[3]];
    let len = frame_body_length(&header);
    assert_eq!(&wire[4..4 + len], b"hello relay");
}

#[test]
fn frame_header_is_big_endian() {
    assert_eq!(frame_header(&vec![0u8; 0x0102]), [0, 0, 1, 2]);
    assert_eq!(frame_body_length(&[0, 1, 0, 0]), 65536);
}

// ---------------------------------------------------------------------
// Relay decisions and configuration
// ---------------------------------------------------------------------

#[test]
fn relay_forwards_delivers_or_drops() {
    let relay = KeyPair::generate(&mut OsRng);
    let forward = build_onion_layer(
        &relay.public_key(),
        &OnionPayload::Forward { next_hop: "10.0.0.2:9001".to_string(), body: b"inner".to_vec() },
    )
    .unwrap();
    match handle_frame(&relay, &forward) {
        RelayAction::Forward { next_hop, body } => {
            assert_eq!(next_hop, "10.0.0.2:9001");
            assert_eq!(body, b"inner");
        }
        _ => panic!("expected a forward"),
    }
    let deliver =
        build_onion_layer(&relay.public_key(), &OnionPayload::Deliver { body: b"exit".to_vec() }).unwrap();
    assert!(matches!(handle_frame(&relay, &deliver), RelayAction::Deliver { body } if body == b"exit"));
    assert!(matches!(handle_frame(&relay, b"junk"), RelayAction::Drop(OnionError::FrameTooShort)));
}

#[test]
fn configuration_defaults() {
    assert_eq!(default_max_connections(), 256);
    assert_eq!(mailbox_port(9001), 10001);
}

#[test]
fn fresh_metrics_read_zero() {
    let metrics = Metrics::default();
    metrics.cells_delivered.fetch_add(2, std::sync::atomic::Ordering::Relaxed);
    let snap = metrics.snapshot();
    assert_eq!(snap.cells_forwarded, 0);
    assert_eq!(snap.cells_delivered, 2);
    assert_eq!(snap.decrypt_failures, 0);
    assert_eq!(snap.connections_rejected, 0);
}

#[test]
fn connections_beyond_the_cap_are_refused() {
    assert!(admit_connection(0, 256));
    assert!(admit_connection(255, 256));
    assert!(!admit_connection(256, 256));
    assert!(!admit_connection(0, 0));
}

// ---------------------------------------------------------------------
// Mailbox queue
// ---------------------------------------------------------------------

#[test]
fn push_then_drain_returns_everything_in_order() {
    let mut mailbox = MailboxQueue::new();
    mailbox.push(b"one".to_vec());
    mailbox.push(b"two".to_vec());

    let drained = mailbox.drain();
    assert_eq!(drained, vec![b"one".to_vec(), b"two".to_vec()]);
}

#[test]
fn drain_empties_the_queue() {
    let mut mailbox = MailboxQueue::new();
    mailbox.push(b"x".to_vec());
    mailbox.drain();
    assert_eq!(mailbox.len(), 0);
}

#[test]
fn drain_on_empty_mailbox_returns_empty_vec() {
    let mut mailbox = MailboxQueue::default();
    assert!(mailbox.drain().is_empty());
    assert!(mailbox.is_empty());
}

// ---------------------------------------------------------------------
// Mailbox wire format
// ---------------------------------------------------------------------

#[test]
fn request_bytes_name_the_two_requests() {
    assert_eq!(parse_request(PULL_REQUEST_BYTE), Some(MailboxRequest::Pull));
    assert_eq!(parse_request(DESCRIBE_REQUEST_BYTE), Some(MailboxRequest::Describe));
    assert_eq!(parse_request(0), None);
    assert_eq!(parse_request(0xff), None);
}

#[test]
fn pull_answer_roundtrips_in_order() {
    let cells = vec![b"first".to_vec(), b"second".to_vec(), Vec::new()];
    let wire = encode_pull_response(&cells);
    assert_eq!(&wire[0..4], &[0, 0, 0, 3]);
    assert_eq!(&wire[4..8], &[0, 0, 0, 5]);
    assert_eq!(&wire[8..13], b"first");
    assert_eq!(parse_pull_response(&wire), Some(cells));
}

#[test]
fn empty_pull_answer_is_four_zero_bytes() {
    let wire = encode_pull_response(&Vec::new());
    assert_eq!(wire, vec![0, 0, 0, 0]);
    assert_eq!(parse_pull_response(&wire), Some(Vec::new()));
}

#[test]
fn truncated_pull_answers_are_refused() {
    let wire = encode_pull_response(&vec![b"abc".to_vec()]);
    for cut in 0..wire.len() {
        assert_eq!(parse_pull_response(&wire[..cut]), None, "cut at {cut}");
    }
    let mut longer = wire.clone();
    longer.extend_from_slice(b"trailing");
    assert_eq!(parse_pull_response(&longer), Some(vec![b"abc".to_vec()]));
}

#[test]
fn describe_answer_roundtrips() {
    let key = KeyPair::generate(&mut OsRng).public_key();
    let identity = RelayIdentity {
        id: "relay-xyz".to_string(),
        public_key: key,
        main_addr: "127.0.0.1:9042".to_string(),
    };
    let wire = encode_describe_response(&identity);
    assert_eq!(wire.len(), 2 + 9 + 32 + 2 + 14);
    let described = parse_describe_response(&wire).unwrap();
    assert_eq!(described.id, "relay-xyz");
    assert_eq!(described.main_addr, "127.0.0.1:9042");
    assert_eq!(described.public_key.as_bytes(), key.as_bytes());
}

#[test]
fn broken_describe_answers_are_refused() {
    assert_eq!(parse_describe_response(&[0]).err(), Some(WireError::Truncated));
    assert_eq!(parse_describe_response(&[0, 2, 0xff, 0xfe]).err(), Some(WireError::InvalidUtf8));
    let mut missing_key = vec![0, 1, b'a'];
    missing_key.extend_from_slice(&[0u8; 31]);
    assert_eq!(parse_describe_response(&missing_key).err(), Some(WireError::Truncated));
    let mut bad_addr = vec![0, 1, b'a'];
    bad_addr.extend_from_slice(&[0u8; 32]);
    bad_addr.extend_from_slice(&[0, 1, 0x80]);
    assert_eq!(parse_describe_response(&bad_addr).err(), Some(WireError::InvalidUtf8));
}
