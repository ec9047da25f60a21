//! The set of relays a client knows about and may route through.

use vstd::prelude::*;

use crate::crypto::keys::PublicKey;

verus! {

/// What a client knows of one relay.
#[derive(Debug, Clone)]
pub struct RelayInfo {
    pub id: String,
    pub address: String,
    pub public_key: PublicKey,
}

/// A relay's description as plain values.
pub struct RelayInfoView {
    pub id: Seq<char>,
    pub address: Seq<char>,
    pub public_key: Seq<u8>,
}

impl View for RelayInfo {
    type V = RelayInfoView;

    open spec fn view(&self) -> RelayInfoView {
        RelayInfoView { id: self.id@, address: self.address@, public_key: self.public_key@ }
    }
}

/// The views of a sequence of borrowed relays.
pub open spec fn relay_views(rs: Seq<&RelayInfo>) -> Seq<RelayInfoView> {
    rs.map_values(|r: &RelayInfo| r@)
}

/// Whether no two relays share an id.
pub open spec fn distinct_ids(rs: Seq<RelayInfoView>) -> bool {
    forall|a: int, b: int| 0 <= a < b < rs.len() ==> #[trigger] rs[a].id != #[trigger] rs[b].id
}

/// Whether some relay has this id.
pub open spec fn has_id(rs: Seq<RelayInfoView>, id: Seq<char>) -> bool {
    exists|j: int| 0 <= j < rs.len() && #[trigger] rs[j].id == id
}

/// Adding a relay: it replaces the relay with the same id, or else joins
/// at the end.
pub open spec fn spec_add_relay(rs: Seq<RelayInfoView>, r: RelayInfoView) -> Seq<RelayInfoView> {
    if has_id(rs, r.id) {
        rs.update(choose|j: int| 0 <= j < rs.len() && #[trigger] rs[j].id == r.id, r)
    } else {
        rs.push(r)
    }
}

/// The relays a client knows, at most one per id.
pub struct Topology {
    relays: Vec<RelayInfo>,
}

impl View for Topology {
    type V = Seq<RelayInfoView>;

    closed spec fn view(&self) -> Seq<RelayInfoView> {
        self.relays@.map_values(|r: RelayInfo| r@)
    }
}

impl Topology {
    #[verifier::type_invariant]
    closed spec fn unique_ids(self) -> bool {
        distinct_ids(self@)
    }

    /// Every topology holds at most one relay per id.
    pub fn new() -> (r: Self)
        ensures
            r@ == Seq::<RelayInfoView>::empty(),
    {
        let r = Topology { relays: Vec::new() };
        assert(r@ =~= Seq::<RelayInfoView>::empty());
        r
    }

    /// Adds a relay, replacing any relay with the same id.
    pub fn add_relay(&mut self, relay: RelayInfo)
        ensures
            final(self)@ == spec_add_relay(old(self)@, relay@),
            distinct_ids(final(self)@),
    {
        proof {
            use_type_invariant(&*self);
        }
        let ghost old_view = self@;
        let mut relays: Vec<RelayInfo> = Vec::new();
        std::mem::swap(&mut relays, &mut self.relays);
        let found = find_relay(&relays, relay.id.as_str());
        match found {
            Some(j) => {
                proof {
                    assert(old_view[j as int].id == relay@.id);
                    let c = choose|k: int| 0 <= k < old_view.len() && #[trigger] old_view[k].id == relay@.id;
                    assert(c == j) by {
                        if c != j {
                            assert(old_view[c].id == old_view[j as int].id);
                        }
                    }
                }
                relays.set(j, relay);
                assert(relays@.map_values(|r: RelayInfo| r@) =~= spec_add_relay(old_view, relay@));
            },
            None => {
                relays.push(relay);
                assert(relays@.map_values(|r: RelayInfo| r@) =~= spec_add_relay(old_view, relay@));
            },
        }
        self.relays = relays;
    }

    /// The relay with this id, if any.
    pub fn get(&self, id: &str) -> (r: Option<&RelayInfo>)
        ensures
            r is Some <==> has_id(self@, id@),
            r matches Some(x) ==> x@.id == id@ && self@.contains(x@),
    {
        match find_relay(&self.relays, id) {
            Some(j) => {
                assert(self@[j as int] == self.relays@[j as int]@);
                assert(self@[j as int].id == id@);
                Some(&self.relays[j])
            },
            None => {
                assert(!has_id(self@, id@)) by {
                    if has_id(self@, id@) {
                        let j = choose|j: int| 0 <= j < self@.len() && #[trigger] self@[j].id == id@;
                        assert(self@[j] == self.relays@[j]@);
                    }
                }
                None
            },
        }
    }

    /// Every relay, in the topology's order.
    pub fn all(&self) -> (r: Vec<&RelayInfo>)
        ensures
            relay_views(r@) == self@,
            distinct_ids(self@),
    {
        proof {
            use_type_invariant(self);
        }
        let mut out: Vec<&RelayInfo> = Vec::new();
        let mut j: usize = 0;
        while j < self.relays.len()
            invariant
                j <= self.relays@.len(),
                out@.len() == j,
                forall|k: int| 0 <= k < j ==> (#[trigger] out@[k])@ == self.relays@[k]@,
            decreases self.relays@.len() - j,
        {
            out.push(&self.relays[j]);
            j = j + 1;
        }
        assert(relay_views(out@) =~= self@);
        out
    }

    /// How many relays the topology holds.
    pub fn len(&self) -> (r: usize)
        ensures
            r == self@.len(),
    {
        self.relays.len()
    }

    /// Whether the topology holds no relay.
    pub fn is_empty(&self) -> (r: bool)
        ensures
            r == (self@.len() == 0),
    {
        self.relays.len() == 0
    }
}

impl Default for Topology {
    fn default() -> (r: Self)
        ensures
            r@ == Seq::<RelayInfoView>::empty(),
    {
        Topology::new()
    }
}

/// The position of the relay with this id, if any.
fn find_relay(relays: &Vec<RelayInfo>, id: &str) -> (r: Option<usize>)
    ensures
        r matches Some(j) ==> j < relays@.len() && relays@[j as int].id@ == id@,
        r is None ==> forall|j: int| 0 <= j < relays@.len() ==> relays@[j].id@ != id@,
{
    let key = id.to_owned();
    let mut j: usize = 0;
    while j < relays.len()
        invariant
            key@ == id@,
            j <= relays@.len(),
            forall|k: int| 0 <= k < j ==> relays@[k].id@ != id@,
        decreases relays@.len() - j,
    {
        if relays[j].id == key {
            return Some(j);
        }
        j = j + 1;
    }
    None
}

} // verus!
