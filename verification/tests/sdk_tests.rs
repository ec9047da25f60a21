//! Envelopes, sessions, the client's per-cell preparation, receiving and
//! cover traffic, with relays simulated in-process.

use std::collections::HashMap;

use rand::rngs::OsRng;
use veil::client::{PreparedCell, VeilClient};
use veil::cover_traffic::prepare_cover_cell;
use veil::crypto::{KeyPair, ENCRYPTED_CELL_SIZE};
use veil::envelope::{unwrap, wrap, EnvelopeError, ENVELOPE_SIZE};
use veil::mailbox::MailboxQueue;
use veil::pull_listener::{encode_pull_response, parse_pull_response};
use veil::receiver::{open_deliveries, open_envelope, Receiver};
use veil::relay::{handle_frame, RelayAction};
use veil::topology::{RelayInfo, Topology};
use veil::{fragment_message, Cell, Session};

// ---------------------------------------------------------------------
// Envelopes and sessions
// ---------------------------------------------------------------------

#[test]
fn wrap_then_unwrap_roundtrips() {
    let sender = KeyPair::generate(&mut OsRng);
    let fake_encrypted = [7u8; ENCRYPTED_CELL_SIZE];

    let envelope = wrap(&sender.public_key(), &fake_encrypted);
    let (recovered_public, recovered_cell) = unwrap(&envelope).unwrap();

    assert_eq!(recovered_public.as_bytes(), sender.public_key().as_bytes());
    assert_eq!(recovered_cell, fake_encrypted);
}

#[test]
fn wrong_length_is_rejected() {
    assert!(unwrap(&[0u8; 10]).is_err());
}

#[test]
fn wrong_length_reports_both_sizes() {
    assert!(matches!(
        unwrap(&[0u8; 10]),
        Err(EnvelopeError::WrongLength { expected, actual: 10 }) if expected == ENVELOPE_SIZE
    ));
}

#[test]
fn envelope_is_exactly_the_advertised_size() {
    let sender = KeyPair::generate(&mut OsRng);
    let envelope = wrap(&sender.public_key(), &[0u8; ENCRYPTED_CELL_SIZE]);
    assert_eq!(envelope.len(), ENVELOPE_SIZE);
    assert_eq!(&envelope[..32], sender.public_key().as_bytes());
}

#[test]
fn sender_and_recipient_derive_the_same_key() {
    let recipient = KeyPair::generate(&mut OsRng);
    let session = Session::establish(&recipient.public_key()).unwrap();

    let recipient_shared = recipient.diffie_hellman(&session.public_key());
    let recipient_key = recipient_shared.derive_key(b"veil-sdk-session-v1").unwrap();

    assert_eq!(*session.cell_key(), recipient_key);
}

// ---------------------------------------------------------------------
// Sending, relaying and receiving, in-process
// ---------------------------------------------------------------------

struct Fabric {
    topology: Topology,
    keys: HashMap<String, KeyPair>,
    mailboxes: HashMap<String, MailboxQueue>,
}

fn fabric(n: usize, base_port: u16) -> Fabric {
    let mut topology = Topology::new();
    let mut keys = HashMap::new();
    let mut mailboxes = HashMap::new();
    for i in 0..n {
        let keypair = KeyPair::generate(&mut OsRng);
        let address = format!("127.0.0.1:{}", base_port as usize + i);
        topology.add_relay(RelayInfo {
            id: format!("relay-{i}"),
            address: address.clone(),
            public_key: keypair.public_key(),
        });
        keys.insert(address.clone(), keypair);
        mailboxes.insert(address, MailboxQueue::new());
    }
    Fabric { topology, keys, mailboxes }
}

/// Carries a prepared onion hop by hop; returns the exit's address.
fn relay_through(fabric: &mut Fabric, prepared: PreparedCell) -> String {
    let mut at = prepared.first_hop.clone();
    let mut frame = prepared.onion;
    loop {
        let keypair = fabric.keys.get(&at).expect("known relay");
        match handle_frame(keypair, &frame) {
            RelayAction::Forward { next_hop, body } => {
                at = next_hop;
                frame = body;
            }
            RelayAction::Deliver { body } => {
                fabric.mailboxes.get_mut(&at).unwrap().push(body);
                return at;
            }
            RelayAction::Drop(e) => panic!("relay dropped a cell: {e:?}"),
        }
    }
}

/// Pulls every mailbox over the wire format and opens what arrives.
fn poll(fabric: &mut Fabric, receiver: &mut Receiver) -> Vec<Vec<u8>> {
    let mut cells: Vec<Cell> = Vec::new();
    let mut addresses: Vec<String> = fabric.mailboxes.keys().cloned().collect();
    addresses.sort();
    for addr in addresses {
        let drained = fabric.mailboxes.get_mut(&addr).unwrap().drain();
        let wire = encode_pull_response(&drained);
        let pulled = parse_pull_response(&wire).unwrap();
        cells.extend(open_deliveries(receiver.identity(), &pulled));
    }
    receiver.accept(cells)
}

#[test]
fn message_delivered_correctly_through_three_hop_circuit() {
    let mut net = fabric(3, 21000);
    let recipient = KeyPair::generate(&mut OsRng);
    let session = Session::establish(&recipient.public_key()).unwrap();
    let client = VeilClient::new(net.topology, 3);
    net.topology = Topology::new();

    let cells = fragment_message(b"integration test payload", &mut OsRng).unwrap();
    assert_eq!(cells.len(), 1, "short message should fit in a single cell");
    let prepared = client.prepare_cell(&session, &cells[0], &mut OsRng).unwrap();
    let exit_id = prepared.exit_relay_id.clone();
    let exit = relay_through(&mut net, prepared);
    assert_eq!(exit_id, format!("relay-{}", exit.rsplit(':').next().unwrap().parse::<usize>().unwrap() - 21000));

    let delivered = net.mailboxes.get_mut(&exit).unwrap().drain();
    assert_eq!(delivered.len(), 1);
    assert_eq!(delivered[0].len(), ENVELOPE_SIZE);
    let cell = open_envelope(&recipient, &delivered[0]).unwrap();
    assert_eq!(cell.payload(), b"integration test payload");
}

#[test]
fn wrong_recipient_key_cannot_read_the_delivered_cell() {
    let mut net = fabric(3, 21100);
    let recipient = KeyPair::generate(&mut OsRng);
    let eavesdropper = KeyPair::generate(&mut OsRng);
    let session = Session::establish(&recipient.public_key()).unwrap();
    let client = VeilClient::new(net.topology, 3);
    net.topology = Topology::new();

    let cells = fragment_message(b"only the real recipient should read this", &mut OsRng).unwrap();
    let prepared = client.prepare_cell(&session, &cells[0], &mut OsRng).unwrap();
    let exit = relay_through(&mut net, prepared);
    let delivered = net.mailboxes.get_mut(&exit).unwrap().drain();
    assert!(open_envelope(&eavesdropper, &delivered[0]).is_none());
    assert!(open_envelope(&recipient, &delivered[0]).is_some());
}

#[test]
fn multi_cell_message_reassembles_across_polls() {
    let mut net = fabric(4, 21200);
    let recipient = KeyPair::generate(&mut OsRng);
    let session = Session::establish(&recipient.public_key()).unwrap();
    let client = VeilClient::new(net.topology, 3);
    net.topology = Topology::new();
    let mut receiver = Receiver::new(recipient);

    let message = b"first concurrent message, long enough to need several cells. ".repeat(20);
    let cells = fragment_message(&message, &mut OsRng).unwrap();
    assert!(cells.len() > 1);
    let mut completed = Vec::new();
    for cell in cells.iter().rev() {
        let prepared = client.prepare_cell(&session, cell, &mut OsRng).unwrap();
        relay_through(&mut net, prepared);
        completed.extend(poll(&mut net, &mut receiver));
        if completed.is_empty() {
            assert_eq!(receiver.pending_count(), 1);
        }
    }
    assert_eq!(completed, vec![message]);
    assert_eq!(receiver.pending_count(), 0);
}

#[test]
fn a_different_identity_receives_nothing() {
    let mut net = fabric(3, 21400);
    let recipient = KeyPair::generate(&mut OsRng);
    let session = Session::establish(&recipient.public_key()).unwrap();
    let client = VeilClient::new(net.topology, 2);
    net.topology = Topology::new();

    let cells = fragment_message(b"not for the eavesdropper", &mut OsRng).unwrap();
    let prepared = client.prepare_cell(&session, &cells[0], &mut OsRng).unwrap();
    relay_through(&mut net, prepared);
    let mut eavesdropper = Receiver::new(KeyPair::generate(&mut OsRng));
    assert!(poll(&mut net, &mut eavesdropper).is_empty(), "an identity the message wasn't addressed to should decrypt nothing");
    assert_eq!(eavesdropper.pending_count(), 0);
}

#[test]
fn client_reports_routing_errors() {
    let net = fabric(2, 21500);
    let recipient = KeyPair::generate(&mut OsRng);
    let session = Session::establish(&recipient.public_key()).unwrap();
    let cell = Cell::new_data([1u8; 16], 0, 1, b"x").unwrap();

    let client = VeilClient::new(net.topology, 3);
    assert_eq!(client.hop_count(), 3);
    assert_eq!(client.topology().len(), 2);
    assert!(matches!(
        client.prepare_cell(&session, &cell, &mut OsRng),
        Err(veil::client::ClientError::Routing(veil::circuit::CircuitError::PathSelection(
            veil::path_selection::PathSelectionError::InsufficientRelays { needed: 3, available: 2 }
        )))
    ));
    let none = VeilClient::new(Topology::new(), 0);
    assert!(matches!(
        none.prepare_cell(&session, &cell, &mut OsRng),
        Err(veil::client::ClientError::Routing(veil::circuit::CircuitError::EmptyPath))
    ));
}

#[test]
fn opening_ignores_envelopes_of_the_wrong_size() {
    let recipient = KeyPair::generate(&mut OsRng);
    assert!(open_envelope(&recipient, &[0u8; 100]).is_none());
    let cells = open_deliveries(&recipient, &vec![vec![1u8; 5], vec![0u8; ENVELOPE_SIZE]]);
    assert!(cells.is_empty());
}

// ---------------------------------------------------------------------
// Cover traffic
// ---------------------------------------------------------------------

#[test]
fn cover_traffic_actually_delivers_cells_to_a_relay() {
    let mut net = fabric(1, 23000);
    let dummy = Cell::new_dummy(&mut OsRng);
    let prepared = prepare_cover_cell(&net.topology, 1, &dummy, &mut OsRng).unwrap();
    assert_eq!(prepared.first_hop, "127.0.0.1:23000");
    let exit = relay_through(&mut net, prepared);
    let delivered = net.mailboxes.get_mut(&exit).unwrap().drain();
    assert_eq!(
        delivered[0].len(),
        ENVELOPE_SIZE,
        "dummy cells must be indistinguishable in size from a real enveloped cell"
    );
}

#[test]
fn cover_traffic_needs_a_circuit() {
    let net = fabric(1, 23100);
    let dummy = Cell::new_dummy(&mut OsRng);
    assert!(prepare_cover_cell(&net.topology, 2, &dummy, &mut OsRng).is_none());
    assert!(prepare_cover_cell(&net.topology, 0, &dummy, &mut OsRng).is_none());
}

#[test]
fn concurrent_sends_all_arrive_intact() {
    let mut net = fabric(3, 21200);
    let recipient = KeyPair::generate(&mut OsRng);
    let session = Session::establish(&recipient.public_key()).unwrap();
    let client = VeilClient::new(net.topology, 3);
    net.topology = Topology::new();

    let messages: Vec<&[u8]> =
        vec![b"first concurrent message", b"second concurrent message", b"third concurrent message"];
    for msg in &messages {
        let cells = fragment_message(msg, &mut OsRng).unwrap();
        for cell in &cells {
            let prepared = client.prepare_cell(&session, cell, &mut OsRng).unwrap();
            relay_through(&mut net, prepared);
        }
    }
    let mut delivered: Vec<Vec<u8>> = Vec::new();
    for mailbox in net.mailboxes.values_mut() {
        for envelope in mailbox.drain() {
            let cell = open_envelope(&recipient, &envelope).expect("every cell decrypts");
            delivered.push(cell.payload().to_vec());
        }
    }
    for msg in &messages {
        assert!(delivered.iter().any(|d| d.as_slice() == *msg), "message {msg:?} was not delivered");
    }
}

#[test]
fn recipient_receives_by_polling_relay_mailboxes_over_the_network() {
    let mut net = fabric(3, 21300);
    let recipient = KeyPair::generate(&mut OsRng);
    let session = Session::establish(&recipient.public_key()).unwrap();
    let client = VeilClient::new(net.topology, 3);
    net.topology = Topology::new();
    let mut receiver = Receiver::new(recipient);

    let cells = fragment_message(b"delivered via real mailbox pull", &mut OsRng).unwrap();
    let prepared = client.prepare_cell(&session, &cells[0], &mut OsRng).unwrap();
    relay_through(&mut net, prepared);
    let non_empty = net.mailboxes.values().filter(|m| !m.is_empty()).count();
    assert_eq!(non_empty, 1, "exactly one relay's mailbox should have had the cell");
    let messages = poll(&mut net, &mut receiver);
    assert_eq!(messages, vec![b"delivered via real mailbox pull".to_vec()]);
}
