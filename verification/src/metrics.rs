//! Lock-free counters of relay activity.

use vstd::prelude::*;
use std::sync::atomic::{AtomicU64, Ordering};

verus! {

/// Counters that a relay's connection tasks bump concurrently.
pub struct Metrics {
    pub cells_forwarded: AtomicU64,
    pub cells_delivered: AtomicU64,
    pub decrypt_failures: AtomicU64,
    pub connections_rejected: AtomicU64,
}

/// The counters' values at one moment.
#[derive(Debug, Clone, Copy)]
pub struct MetricsSnapshot {
    pub cells_forwarded: u64,
    pub cells_delivered: u64,
    pub decrypt_failures: u64,
    pub connections_rejected: u64,
}

impl Metrics {
    /// Reads every counter once. Other tasks may bump counters between
    /// the reads, so the values need not come from a single instant.
    pub fn snapshot(&self) -> (r: MetricsSnapshot) {
        MetricsSnapshot {
            cells_forwarded: self.cells_forwarded.load(Ordering::Relaxed),
            cells_delivered: self.cells_delivered.load(Ordering::Relaxed),
            decrypt_failures: self.decrypt_failures.load(Ordering::Relaxed),
            connections_rejected: self.connections_rejected.load(Ordering::Relaxed),
        }
    }
}

impl Default for Metrics {
    fn default() -> (r: Self) {
        Metrics {
            cells_forwarded: AtomicU64::new(0),
            cells_delivered: AtomicU64::new(0),
            decrypt_failures: AtomicU64::new(0),
            connections_rejected: AtomicU64::new(0),
        }
    }
}

} // verus!
