//! Topologies, path selection, circuits, topology files and discovery.

use rand::rngs::OsRng;
use veil::circuit::{build_circuit, CircuitError};
use veil::crypto::KeyPair;
use veil::discovery::assemble_topology;
use veil::dummy_traffic::jitter_millis;
use veil::forwarding::{peel_onion_layer, OnionError, OnionPayload};
use veil::path_selection::{select_diverse_path, select_path, subnet_key, PathSelectionError};
use veil::pull_listener::RelayIdentity;
use veil::topology::{RelayInfo, Topology};
use veil::topology_file::{RelayEntry, TopologyFile, TopologyFileError, CURRENT_VERSION};

fn topology_with(n: usize) -> Topology {
    let mut topo = Topology::new();
    for i in 0..n {
        topo.add_relay(RelayInfo {
            id: format!("relay-{i}"),
            address: format!("127.0.0.1:{}", 9000 + i),
            public_key: KeyPair::generate(&mut OsRng).public_key(),
        });
    }
    topo
}

fn topology_with_addresses(addresses: &[&str]) -> Topology {
    let mut topo = Topology::new();
    for (i, addr) in addresses.iter().enumerate() {
        topo.add_relay(RelayInfo {
            id: format!("relay-{i}"),
            address: addr.to_string(),
            public_key: KeyPair::generate(&mut OsRng).public_key(),
        });
    }
    topo
}

fn dummy_relay(id: &str) -> RelayInfo {
    RelayInfo {
        id: id.to_string(),
        address: format!("127.0.0.1:{}", 9000),
        public_key: KeyPair::generate(&mut OsRng).public_key(),
    }
}

// ---------------------------------------------------------------------
// Topology
// ---------------------------------------------------------------------

#[test]
fn add_and_get_relay() {
    let mut topo = Topology::new();
    topo.add_relay(dummy_relay("r1"));
    assert!(topo.get("r1").is_some());
    assert!(topo.get("nonexistent").is_none());
}

#[test]
fn len_reflects_relay_count() {
    let mut topo = Topology::new();
    assert!(topo.is_empty());
    topo.add_relay(dummy_relay("r1"));
    topo.add_relay(dummy_relay("r2"));
    assert_eq!(topo.len(), 2);
}

#[test]
fn adding_a_known_id_replaces_the_relay() {
    let mut topo = Topology::default();
    topo.add_relay(dummy_relay("r1"));
    let mut newer = dummy_relay("r1");
    newer.address = "10.0.0.9:9100".to_string();
    topo.add_relay(newer);
    assert_eq!(topo.len(), 1);
    assert_eq!(topo.get("r1").unwrap().address, "10.0.0.9:9100");
    assert_eq!(topo.all().len(), 1);
}

// ---------------------------------------------------------------------
// Path selection
// ---------------------------------------------------------------------

#[test]
fn selects_requested_hop_count() {
    let topo = topology_with(5);
    let mut rng = OsRng;
    let path = select_path(&topo, 3, &mut rng).unwrap();
    assert_eq!(path.len(), 3);
}

#[test]
fn selected_relays_are_distinct() {
    let topo = topology_with(5);
    let mut rng = OsRng;
    let path = select_path(&topo, 4, &mut rng).unwrap();
    let mut ids: Vec<&str> = path.iter().map(|r| r.id.as_str()).collect();
    let before = ids.len();
    ids.sort_unstable();
    ids.dedup();
    assert_eq!(ids.len(), before, "path must not repeat a relay");
}

#[test]
fn errors_when_topology_too_small() {
    let topo = topology_with(2);
    let mut rng = OsRng;
    let result = select_path(&topo, 5, &mut rng);
    assert!(matches!(result, Err(PathSelectionError::InsufficientRelays { .. })));
}

#[test]
fn insufficient_relays_reports_both_counts() {
    let topo = topology_with(2);
    let result = select_path(&topo, 5, &mut OsRng);
    assert!(matches!(
        result,
        Err(PathSelectionError::InsufficientRelays { needed: 5, available: 2 })
    ));
}

#[test]
fn full_length_path_uses_every_relay() {
    let topo = topology_with(4);
    let path = select_path(&topo, 4, &mut OsRng).unwrap();
    let mut ids: Vec<String> = path.iter().map(|r| r.id.clone()).collect();
    ids.sort();
    assert_eq!(ids, vec!["relay-0", "relay-1", "relay-2", "relay-3"]);
}

#[test]
fn zero_hops_gives_an_empty_path() {
    let topo = topology_with(3);
    assert!(select_path(&topo, 0, &mut OsRng).unwrap().is_empty());
    assert!(select_diverse_path(&topo, 0, &mut OsRng).unwrap().is_empty());
}

#[test]
fn diverse_path_avoids_repeating_subnets_when_alternatives_exist() {
    let topo = topology_with_addresses(&[
        "10.0.1.1:9001",
        "10.0.2.1:9001",
        "10.0.3.1:9001",
        "10.0.4.1:9001",
    ]);
    let mut rng = OsRng;
    let path = select_diverse_path(&topo, 4, &mut rng).unwrap();

    let mut subnets: Vec<[u8; 3]> = path.iter().filter_map(|r| subnet_key(&r.address)).collect();
    let before = subnets.len();
    subnets.sort_unstable();
    subnets.dedup();
    assert_eq!(subnets.len(), before, "no subnet should appear twice when diverse options exist");
}

#[test]
fn diverse_path_degrades_gracefully_when_topology_has_no_diversity() {
    let topo = topology_with(5);
    let mut rng = OsRng;
    let path = select_diverse_path(&topo, 3, &mut rng).unwrap();
    assert_eq!(path.len(), 3);
}

#[test]
fn diverse_path_prefers_diversity_over_full_repeats_when_partially_available() {
    let topo = topology_with_addresses(&[
        "10.0.1.1:9001",
        "10.0.1.2:9001",
        "10.0.2.1:9001",
        "10.0.3.1:9001",
    ]);
    let mut rng = OsRng;
    let path = select_diverse_path(&topo, 3, &mut rng).unwrap();

    let mut subnets: Vec<[u8; 3]> = path.iter().filter_map(|r| subnet_key(&r.address)).collect();
    let before = subnets.len();
    subnets.sort_unstable();
    subnets.dedup();
    assert_eq!(
        subnets.len(),
        before,
        "with enough diverse relays available, none should be wasted on a repeat"
    );
}

#[test]
fn diverse_path_errors_when_topology_too_small() {
    let topo = topology_with(2);
    let mut rng = OsRng;
    let result = select_diverse_path(&topo, 5, &mut rng);
    assert!(matches!(result, Err(PathSelectionError::InsufficientRelays { .. })));
}

#[test]
fn diverse_path_fills_with_repeats_only_after_every_subnet() {
    // Three relays share a subnet and one stands alone: a path of two
    // must take the lone relay and one of the others.
    let topo = topology_with_addresses(&[
        "10.0.1.1:9001",
        "10.0.1.2:9001",
        "10.0.1.3:9001",
        "10.0.9.1:9001",
    ]);
    for _ in 0..20 {
        let path = select_diverse_path(&topo, 2, &mut OsRng).unwrap();
        let subnets: Vec<[u8; 3]> = path.iter().filter_map(|r| subnet_key(&r.address)).collect();
        assert_eq!(subnets.len(), 2);
        assert_ne!(subnets[0], subnets[1]);
    }
}

#[test]
fn subnet_key_handles_hostnames_and_ipv6_as_unknown() {
    assert_eq!(subnet_key("relay2:9001"), None, "Docker service names have no IPv4 subnet");
    assert_eq!(subnet_key("[::1]:9001"), None, "IPv6 literals aren't parsed as IPv4");
    assert_eq!(subnet_key("not-even-an-address"), None);
}

#[test]
fn subnet_key_ignores_port_differences_on_the_same_host() {
    assert_eq!(subnet_key("127.0.0.1:9001"), subnet_key("127.0.0.1:9002"));
}

#[test]
fn subnet_key_reads_the_first_three_octets() {
    assert_eq!(subnet_key("192.168.7.42:9001"), Some([192, 168, 7]));
    assert_eq!(subnet_key("10.0.0.255:1"), Some([10, 0, 0]));
    assert_eq!(subnet_key("1.2.3.4:"), Some([1, 2, 3]));
}

#[test]
fn subnet_key_refuses_malformed_ipv4_hosts() {
    assert_eq!(subnet_key("256.1.1.1:9001"), None, "octet above 255");
    assert_eq!(subnet_key("01.1.1.1:9001"), None, "leading zero");
    assert_eq!(subnet_key("1.1.1:9001"), None, "three octets");
    assert_eq!(subnet_key("1.1.1.1.1:9001"), None, "five octets");
    assert_eq!(subnet_key("1..1.1:9001"), None, "empty octet");
    assert_eq!(subnet_key("1.1.1.1"), None, "no port separator");
    assert_eq!(subnet_key("1.1.1.1000:9"), None, "four-digit octet");
}

// ---------------------------------------------------------------------
// Circuits
// ---------------------------------------------------------------------

struct TestRelay {
    info: RelayInfo,
    keypair: KeyPair,
}

fn make_relay(id: &str, port: u16) -> TestRelay {
    let keypair = KeyPair::generate(&mut OsRng);
    let info = RelayInfo {
        id: id.to_string(),
        address: format!("127.0.0.1:{port}"),
        public_key: keypair.public_key(),
    };
    TestRelay { info, keypair }
}

#[test]
fn three_hop_circuit_peels_correctly_at_every_hop() {
    let r1 = make_relay("r1", 9001);
    let r2 = make_relay("r2", 9002);
    let r3 = make_relay("r3", 9003);
    let path = [&r1.info, &r2.info, &r3.info];

    let onion = build_circuit(&path, b"final message".to_vec()).unwrap();

    let peeled_1 = peel_onion_layer(&r1.keypair, &onion).unwrap();
    let layer_for_r2 = match peeled_1 {
        OnionPayload::Forward { next_hop, body } => {
            assert_eq!(next_hop, r2.info.address);
            body
        }
        _ => panic!("relay 1 should forward"),
    };

    let peeled_2 = peel_onion_layer(&r2.keypair, &layer_for_r2).unwrap();
    let layer_for_r3 = match peeled_2 {
        OnionPayload::Forward { next_hop, body } => {
            assert_eq!(next_hop, r3.info.address);
            body
        }
        _ => panic!("relay 2 should forward"),
    };

    let peeled_3 = peel_onion_layer(&r3.keypair, &layer_for_r3).unwrap();
    match peeled_3 {
        OnionPayload::Deliver { body } => assert_eq!(body, b"final message"),
        _ => panic!("relay 3 should deliver"),
    }
}

#[test]
fn empty_path_is_rejected() {
    let path: [&RelayInfo; 0] = [];
    let result = build_circuit(&path, b"x".to_vec());
    assert!(matches!(result, Err(CircuitError::EmptyPath)));
}

#[test]
fn circuit_layers_grow_by_the_exact_overhead() {
    let r1 = make_relay("r1", 9001);
    let r2 = make_relay("r2", 9002);
    let body = vec![0u8; 100];
    let one = build_circuit(&[&r2.info], body.clone()).unwrap();
    assert_eq!(one.len(), 60 + 1 + 100);
    let two = build_circuit(&[&r1.info, &r2.info], body).unwrap();
    assert_eq!(two.len(), 60 + 3 + "127.0.0.1:9002".len() + one.len());
}

#[test]
fn only_the_addressed_relay_can_peel_a_circuit() {
    let r1 = make_relay("r1", 9001);
    let r2 = make_relay("r2", 9002);
    let onion = build_circuit(&[&r1.info, &r2.info], b"body".to_vec()).unwrap();
    assert!(matches!(
        peel_onion_layer(&r2.keypair, &onion),
        Err(OnionError::DecryptionFailed)
    ));
}

// ---------------------------------------------------------------------
// Topology files
// ---------------------------------------------------------------------

fn sample_topology() -> Topology {
    let mut topo = Topology::new();
    for i in 0..3 {
        topo.add_relay(RelayInfo {
            id: format!("relay-{i}"),
            address: format!("127.0.0.1:{}", 9001 + i),
            public_key: KeyPair::generate(&mut OsRng).public_key(),
        });
    }
    topo
}

fn entry(id: &str, address: &str, public_key: &str) -> RelayEntry {
    RelayEntry { id: id.to_string(), address: address.to_string(), public_key: public_key.to_string() }
}

#[test]
fn json_roundtrip_preserves_every_relay() {
    let original = sample_topology();
    let file = original.to_file_data();
    let restored = Topology::from_file_data(file).unwrap();

    assert_eq!(restored.len(), original.len());
    for relay in original.all() {
        let restored_relay = restored.get(&relay.id).expect("relay id should survive the roundtrip");
        assert_eq!(restored_relay.address, relay.address);
        assert_eq!(restored_relay.public_key.as_bytes(), relay.public_key.as_bytes());
    }
}

#[test]
fn unsupported_version_is_rejected() {
    let file = TopologyFile { version: 99, relays: vec![] };
    let result = Topology::from_file_data(file);
    assert!(matches!(result, Err(TopologyFileError::UnsupportedVersion { found: 99, .. })));
}

#[test]
fn invalid_hex_public_key_is_rejected() {
    let file = TopologyFile {
        version: 1,
        relays: vec![entry("bad", "127.0.0.1:9001", "not hex at all")],
    };
    let result = Topology::from_file_data(file);
    assert!(matches!(result, Err(TopologyFileError::InvalidPublicKey { .. })));
}

#[test]
fn wrong_length_public_key_is_rejected() {
    let file = TopologyFile { version: 1, relays: vec![entry("bad", "127.0.0.1:9001", "aabbcc")] };
    let result = Topology::from_file_data(file);
    assert!(matches!(result, Err(TopologyFileError::InvalidPublicKey { .. })));
}

#[test]
fn invalid_public_key_reports_id_and_reason() {
    let good = "ab".repeat(32);
    let file = TopologyFile {
        version: CURRENT_VERSION,
        relays: vec![
            entry("fine", "127.0.0.1:9001", &good),
            entry("short", "127.0.0.1:9002", "aabbcc"),
            entry("nothex", "127.0.0.1:9003", "zz"),
        ],
    };
    match Topology::from_file_data(file) {
        Err(TopologyFileError::InvalidPublicKey { id, reason }) => {
            assert_eq!(id, "short");
            assert_eq!(reason, "must decode to exactly 32 bytes");
        }
        _ => panic!("expected the first bad entry to be reported"),
    }
    let file = TopologyFile { version: 1, relays: vec![entry("x", "a:1", "not hex")] };
    match Topology::from_file_data(file) {
        Err(TopologyFileError::InvalidPublicKey { id, reason }) => {
            assert_eq!(id, "x");
            assert_eq!(reason, "not valid hex");
        }
        _ => panic!("expected a hex error"),
    }
}

#[test]
fn unsupported_version_reports_the_expected_version() {
    let result = Topology::from_file_data(TopologyFile { version: 0, relays: vec![] });
    assert!(matches!(
        result,
        Err(TopologyFileError::UnsupportedVersion { found: 0, expected: 1 })
    ));
}

#[test]
fn file_entries_are_written_in_order_with_lowercase_hex() {
    let mut topo = Topology::new();
    topo.add_relay(RelayInfo {
        id: "a".to_string(),
        address: "1.2.3.4:5".to_string(),
        public_key: veil::crypto::public_key_from_bytes([0xABu8; 32]),
    });
    topo.add_relay(RelayInfo {
        id: "b".to_string(),
        address: "1.2.3.5:5".to_string(),
        public_key: veil::crypto::public_key_from_bytes([1u8; 32]),
    });
    let file = topo.to_file_data();
    assert_eq!(file.version, CURRENT_VERSION);
    assert_eq!(file.relays.len(), 2);
    assert_eq!(file.relays[0].id, "a");
    assert_eq!(file.relays[0].public_key, "ab".repeat(32));
    assert_eq!(file.relays[1].id, "b");
    assert_eq!(file.relays[1].address, "1.2.3.5:5");
    assert_eq!(file.relays[1].public_key, "01".repeat(32));
}

#[test]
fn later_entries_replace_earlier_ones_with_the_same_id() {
    let key = "cd".repeat(32);
    let file = TopologyFile {
        version: 1,
        relays: vec![entry("dup", "127.0.0.1:1", &key), entry("dup", "127.0.0.1:2", &key)],
    };
    let topo = Topology::from_file_data(file).unwrap();
    assert_eq!(topo.len(), 1);
    assert_eq!(topo.get("dup").unwrap().address, "127.0.0.1:2");
}

// ---------------------------------------------------------------------
// Discovery
// ---------------------------------------------------------------------

#[test]
fn discovery_keeps_answers_and_reports_failures() {
    let addresses = vec![
        "127.0.0.1:26000".to_string(),
        "127.0.0.1:26999".to_string(),
        "127.0.0.1:26001".to_string(),
    ];
    let k1 = KeyPair::generate(&mut OsRng).public_key();
    let k2 = KeyPair::generate(&mut OsRng).public_key();
    let outcomes = vec![
        Ok(RelayIdentity { id: "disco-1".to_string(), public_key: k1, main_addr: "127.0.0.1:25000".to_string() }),
        Err(std::io::Error::new(std::io::ErrorKind::ConnectionRefused, "nothing listens")),
        Ok(RelayIdentity { id: "disco-2".to_string(), public_key: k2, main_addr: "127.0.0.1:25001".to_string() }),
    ];
    let (topology, unreachable) = assemble_topology(&addresses, outcomes);
    assert_eq!(topology.len(), 2);
    assert_eq!(topology.get("disco-1").unwrap().address, "127.0.0.1:25000");
    assert_eq!(topology.get("disco-2").unwrap().public_key.as_bytes(), k2.as_bytes());
    assert_eq!(unreachable.len(), 1);
    assert_eq!(unreachable[0].address, "127.0.0.1:26999");
    assert_eq!(unreachable[0].error.kind(), std::io::ErrorKind::ConnectionRefused);
}

// ---------------------------------------------------------------------
// Cover-traffic timing
// ---------------------------------------------------------------------

#[test]
fn jitter_stays_inside_the_span() {
    assert_eq!(jitter_millis(4, 10), 2);
    assert_eq!(jitter_millis(0, 12345), 0, "a zero span counts as one millisecond");
    assert_eq!(jitter_millis(1, u64::MAX), 0);
    for r in 0..50u64 {
        assert!(jitter_millis(7, r * 31) < 7);
    }
}

#[test]
fn emits_a_dummy_cell_within_bounds() {
    // A 1..5 ms interval: the jitter stays below the 4 ms span.
    for r in [0u64, 1, 3, 4, 17, u64::MAX] {
        assert!(jitter_millis(4, r) < 4);
    }
    let cell = veil::Cell::new_dummy(&mut OsRng);
    assert_eq!(cell.cell_type(), veil::cell::CellType::Dummy);
}
