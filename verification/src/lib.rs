//! Veil: a fixed-size-cell onion-routing fabric.
//!
//! The verified library holds the wire formats (cells, onion layers,
//! envelopes, mailbox replies), fragmentation and reassembly, the
//! per-cell and per-hop cryptography, relay path selection and circuit
//! construction. Networking, timers and configuration files live in the
//! companion application crate.

pub mod cell;
pub mod circuit;
pub mod client;
pub mod cover_traffic;
pub mod crypto;
pub mod discovery;
pub mod dummy_traffic;
pub mod envelope;
pub mod error;
pub mod forwarding;
pub mod fragmentation;
pub mod mailbox;
pub mod metrics;
pub mod path_selection;
pub mod pull_listener;
pub mod reassembly;
pub mod receiver;
pub mod relay;
pub mod session;
pub mod topology;
pub mod topology_file;

pub use cell::{Cell, CellType, MessageId, CELL_SIZE, HEADER_SIZE, PAYLOAD_CAPACITY};
pub use error::{VeilError, VeilResult};
pub use fragmentation::{fragment_message, MAX_MESSAGE_SIZE};
pub use reassembly::Reassembler;
pub use session::Session;
pub(crate) mod bytes;
pub(crate) mod primitives;
