//! The contents of a topology file, and their conversion to and from a
//! [`Topology`].
//!
//! File format (version 1), as JSON:
//! ```json
//! {
//!   "version": 1,
//!   "relays": [
//!     { "id": "relay-1", "address": "127.0.0.1:9001", "public_key": "<64 hex chars>" }
//!   ]
//! }
//! ```
//! Reading and writing the file and the JSON text itself belong to the
//! application; this module checks and converts the decoded contents.

use vstd::prelude::*;

use crate::crypto::keys::{public_key_from_bytes, public_key_to_hex};
use crate::primitives::{hex_decode, lemma_hex_roundtrip, spec_hex_decode, spec_hex_encode};
use crate::topology::{distinct_ids, has_id, spec_add_relay, RelayInfo, RelayInfoView, Topology};

verus! {

/// The file format version this library reads and writes.
pub const CURRENT_VERSION: u32 = 1;

/// Why a relay entry's public key was refused: not hex.
pub const REASON_NOT_HEX: &'static str = "not valid hex";

/// Why a relay entry's public key was refused: not 32 bytes.
pub const REASON_WRONG_LENGTH: &'static str = "must decode to exactly 32 bytes";

#[derive(Debug)]
pub enum TopologyFileError {
    Read { path: String, source: std::io::Error },
    Write { path: String, source: std::io::Error },
    Parse(serde_json::Error),
    InvalidPublicKey { id: String, reason: &'static str },
    UnsupportedVersion { found: u32, expected: u32 },
}

/// One relay as a topology file lists it.
pub struct RelayEntry {
    pub id: String,
    pub address: String,
    pub public_key: String,
}

/// A relay entry as plain values.
pub struct RelayEntryView {
    pub id: Seq<char>,
    pub address: Seq<char>,
    pub public_key: Seq<char>,
}

impl View for RelayEntry {
    type V = RelayEntryView;

    open spec fn view(&self) -> RelayEntryView {
        RelayEntryView { id: self.id@, address: self.address@, public_key: self.public_key@ }
    }
}

/// The decoded contents of a topology file.
pub struct TopologyFile {
    pub version: u32,
    pub relays: Vec<RelayEntry>,
}

/// The views of a file's relay entries.
pub open spec fn entry_views(entries: Seq<RelayEntry>) -> Seq<RelayEntryView> {
    entries.map_values(|e: RelayEntry| e@)
}

/// What is wrong with a relay entry's public key.
pub enum KeyProblem {
    NotHex,
    WrongLength,
}

/// The reason text that a key problem is reported with.
pub open spec fn reason_text(p: KeyProblem) -> Seq<char> {
    match p {
        KeyProblem::NotHex => REASON_NOT_HEX@,
        KeyProblem::WrongLength => REASON_WRONG_LENGTH@,
    }
}

/// The 32-byte public key an entry's hex text decodes to.
pub open spec fn entry_key(e: RelayEntryView) -> Result<Seq<u8>, KeyProblem> {
    match spec_hex_decode(e.public_key) {
        None => Err(KeyProblem::NotHex),
        Some(b) => if b.len() == 32 {
            Ok(b)
        } else {
            Err(KeyProblem::WrongLength)
        },
    }
}

/// Loading entries in order into an empty topology: each one is added
/// as `add_relay` adds it; the first entry whose key is refused stops
/// the load, reported with its id.
pub open spec fn spec_load_relays(entries: Seq<RelayEntryView>) -> Result<
    Seq<RelayInfoView>,
    (Seq<char>, KeyProblem),
>
    decreases entries.len(),
{
    if entries.len() == 0 {
        Ok(Seq::empty())
    } else {
        match spec_load_relays(entries.drop_last()) {
            Err(e) => Err(e),
            Ok(rs) => {
                let e = entries.last();
                match entry_key(e) {
                    Err(p) => Err((e.id, p)),
                    Ok(k) => Ok(
                        spec_add_relay(rs, RelayInfoView { id: e.id, address: e.address, public_key: k }),
                    ),
                }
            },
        }
    }
}

/// The entries that a topology is written as, in its order.
pub open spec fn file_entries(rs: Seq<RelayInfoView>) -> Seq<RelayEntryView> {
    rs.map_values(
        |r: RelayInfoView|
            RelayEntryView { id: r.id, address: r.address, public_key: spec_hex_encode(r.public_key) },
    )
}

/// The relay a checked entry describes.
fn load_entry(entry: &RelayEntry) -> (r: Result<RelayInfo, TopologyFileError>)
    ensures
        match entry_key(entry@) {
            Ok(k) => r matches Ok(info) && info@ == (RelayInfoView {
                id: entry@.id,
                address: entry@.address,
                public_key: k,
            }),
            Err(p) => r matches Err(TopologyFileError::InvalidPublicKey { id, reason }) && id@
                == entry@.id && reason@ == reason_text(p),
        },
{
    let bytes = match hex_decode(entry.public_key.as_str()) {
        Some(b) => b,
        None => {
            return Err(
                TopologyFileError::InvalidPublicKey { id: entry.id.clone(), reason: REASON_NOT_HEX },
            );
        },
    };
    if bytes.len() != 32 {
        return Err(
            TopologyFileError::InvalidPublicKey { id: entry.id.clone(), reason: REASON_WRONG_LENGTH },
        );
    }
    let mut array = [0u8; 32];
    let mut i: usize = 0;
    while i < 32
        invariant
            i <= 32,
            bytes@.len() == 32,
            forall|j: int| 0 <= j < i ==> array@[j] == bytes@[j],
        decreases 32 - i,
    {
        array[i] = bytes[i];
        i = i + 1;
    }
    assert(array@ =~= bytes@);
    Ok(
        RelayInfo {
            id: entry.id.clone(),
            address: entry.address.clone(),
            public_key: public_key_from_bytes(array),
        },
    )
}

impl Topology {
    /// Builds a topology from a file's decoded contents. The version must
    /// be [`CURRENT_VERSION`]; each entry's public key must be hex for
    /// exactly 32 bytes; entries are added in order, a later entry
    /// replacing an earlier one with the same id.
    pub fn from_file_data(file: TopologyFile) -> (r: Result<Topology, TopologyFileError>)
        ensures
            file.version != CURRENT_VERSION ==> (r matches Err(
                TopologyFileError::UnsupportedVersion { found, expected },
            ) && found == file.version && expected == CURRENT_VERSION),
            file.version == CURRENT_VERSION ==> match spec_load_relays(entry_views(file.relays@)) {
                Ok(rs) => r matches Ok(t) && t@ == rs,
                Err((id, p)) => r matches Err(TopologyFileError::InvalidPublicKey { id: i, reason })
                    && i@ == id && reason@ == reason_text(p),
            },
    {
        if file.version != CURRENT_VERSION {
            return Err(
                TopologyFileError::UnsupportedVersion { found: file.version, expected: CURRENT_VERSION },
            );
        }
        let ghost entries = entry_views(file.relays@);
        let mut topology = Topology::new();
        let mut i: usize = 0;
        assert(entries.take(0) =~= Seq::<RelayEntryView>::empty());
        while i < file.relays.len()
            invariant
                i <= file.relays@.len(),
                file.version == CURRENT_VERSION,
                entries == entry_views(file.relays@),
                spec_load_relays(entries.take(i as int)) == Ok::<
                    Seq<RelayInfoView>,
                    (Seq<char>, KeyProblem),
                >(topology@),
            decreases file.relays@.len() - i,
        {
            let entry = &file.relays[i];
            proof {
                assert(entries[i as int] == entry@);
                assert(entries.take(i + 1).drop_last() =~= entries.take(i as int));
                assert(entries.take(i + 1).last() == entry@);
            }
            let info = match load_entry(entry) {
                Ok(info) => info,
                Err(e) => {
                    proof {
                        lemma_load_stops(entries, i + 1);
                    }
                    return Err(e);
                },
            };
            topology.add_relay(info);
            i = i + 1;
        }
        assert(entries.take(i as int) =~= entries);
        Ok(topology)
    }

    /// The file contents that describe this topology: the current
    /// version and one entry per relay, in the topology's order, with the
    /// public key as lowercase hex. Loading them back gives this topology.
    pub fn to_file_data(&self) -> (r: TopologyFile)
        ensures
            r.version == CURRENT_VERSION,
            entry_views(r.relays@) == file_entries(self@),
            spec_load_relays(entry_views(r.relays@)) == Ok::<
                Seq<RelayInfoView>,
                (Seq<char>, KeyProblem),
            >(self@),
    {
        let all = self.all();
        let mut relays: Vec<RelayEntry> = Vec::new();
        let mut i: usize = 0;
        while i < all.len()
            invariant
                i <= all@.len(),
                crate::topology::relay_views(all@) == self@,
                entry_views(relays@) == file_entries(self@).take(i as int),
            decreases all@.len() - i,
        {
            let r = all[i];
            let entry = RelayEntry {
                id: r.id.clone(),
                address: r.address.clone(),
                public_key: public_key_to_hex(&r.public_key),
            };
            let ghost before = relays@;
            relays.push(entry);
            proof {
                assert(self@[i as int] == r@);
                assert(entry_views(relays@) =~= entry_views(before).push(entry@));
            }
            i = i + 1;
            assert(entry_views(relays@) =~= file_entries(self@).take(i as int));
        }
        assert(file_entries(self@).take(all@.len() as int) =~= file_entries(self@));
        proof {
            assert forall|j: int| 0 <= j < self@.len() implies (#[trigger] self@[j]).public_key.len()
                == 32 by {
                assert(self@[j] == all@[j]@);
            }
            lemma_file_roundtrip(self@);
        }
        TopologyFile { version: CURRENT_VERSION, relays }
    }
}

/// A load that fails at entry `n - 1` fails at that entry for the whole
/// list: later entries are never looked at.
proof fn lemma_load_stops(entries: Seq<RelayEntryView>, n: int)
    requires
        0 < n <= entries.len(),
        spec_load_relays(entries.take(n)) is Err,
    ensures
        spec_load_relays(entries) == spec_load_relays(entries.take(n)),
    decreases entries.len() - n,
{
    if n < entries.len() {
        assert(entries.take(n + 1).drop_last() =~= entries.take(n));
        lemma_load_stops(entries, n + 1);
    } else {
        assert(entries.take(n) =~= entries);
    }
}

/// Writing a topology to a file's contents and loading them back gives
/// the same relays in the same order: every key is 32 bytes and hex
/// decodes what hex encoded, and distinct ids make every load an append.
pub proof fn lemma_file_roundtrip(rs: Seq<RelayInfoView>)
    requires
        distinct_ids(rs),
        forall|i: int| 0 <= i < rs.len() ==> (#[trigger] rs[i]).public_key.len() == 32,
    ensures
        spec_load_relays(file_entries(rs)) == Ok::<Seq<RelayInfoView>, (Seq<char>, KeyProblem)>(rs),
    decreases rs.len(),
{
    if rs.len() > 0 {
        let init = rs.drop_last();
        assert(distinct_ids(init)) by {
            assert forall|a: int, b: int| 0 <= a < b < init.len() implies #[trigger] init[a].id
                != #[trigger] init[b].id by {
                assert(init[a] == rs[a]);
                assert(init[b] == rs[b]);
            }
        }
        assert forall|i: int| 0 <= i < init.len() implies (#[trigger] init[i]).public_key.len()
            == 32 by {
            assert(init[i] == rs[i]);
        }
        lemma_file_roundtrip(init);
        assert(file_entries(rs).drop_last() =~= file_entries(init));
        let r = rs.last();
        assert(r.public_key.len() == 32) by {
            assert(rs[rs.len() - 1] == r);
        }
        lemma_hex_roundtrip(r.public_key);
        assert(file_entries(rs).last() == RelayEntryView {
            id: r.id,
            address: r.address,
            public_key: spec_hex_encode(r.public_key),
        });
        assert(!has_id(init, r.id)) by {
            if has_id(init, r.id) {
                let j = choose|j: int| 0 <= j < init.len() && #[trigger] init[j].id == r.id;
                assert(rs[j].id != rs[rs.len() - 1].id);
            }
        }
        assert(init.push(r) =~= rs);
        assert(entry_key(file_entries(rs).last()) == Ok::<Seq<u8>, KeyProblem>(r.public_key));
        assert(spec_add_relay(init, r) == init.push(r));
    } else {
        assert(file_entries(rs) =~= Seq::<RelayEntryView>::empty());
        assert(rs =~= Seq::<RelayInfoView>::empty());
    }
}

} // verus!
