//! Topology discovery: a topology built from nothing but relay mailbox
//! addresses, by asking each relay to describe itself.
//!
//! The application sends the DESCRIBE requests, one address after
//! another; [`assemble_topology`] turns their outcomes into a topology
//! and a list of the relays that could not be reached.

use vstd::prelude::*;

use crate::pull_listener::{RelayIdentity, RelayIdentityView};
use crate::topology::{spec_add_relay, RelayInfo, RelayInfoView, Topology};

verus! {

/// A relay that could not be reached, or did not answer correctly.
/// Collected rather than fatal: the relays that did answer still make a
/// topology.
#[derive(Debug)]
pub struct UnreachableRelay {
    pub address: String,
    pub error: std::io::Error,
}

/// The relay a DESCRIBE answer introduces: its id, its main address (not
/// the mailbox address it was asked on) and its public key.
pub open spec fn identity_relay(id: RelayIdentityView) -> RelayInfoView {
    RelayInfoView { id: id.id, address: id.main_addr, public_key: id.public_key }
}

/// The relays that the answers, in order, add to an empty topology.
pub open spec fn spec_discovered(outcomes: Seq<Option<RelayIdentityView>>) -> Seq<RelayInfoView>
    decreases outcomes.len(),
{
    if outcomes.len() == 0 {
        Seq::empty()
    } else {
        let before = spec_discovered(outcomes.drop_last());
        match outcomes.last() {
            Some(id) => spec_add_relay(before, identity_relay(id)),
            None => before,
        }
    }
}

/// The positions of the failed outcomes, in order.
pub open spec fn spec_failed_positions(outcomes: Seq<Option<RelayIdentityView>>) -> Seq<int>
    decreases outcomes.len(),
{
    if outcomes.len() == 0 {
        Seq::empty()
    } else {
        let before = spec_failed_positions(outcomes.drop_last());
        match outcomes.last() {
            Some(_) => before,
            None => before.push(outcomes.len() - 1),
        }
    }
}

/// The outcomes as plain values: an identity, or nothing for a failure.
pub open spec fn outcome_views(outcomes: Seq<Result<RelayIdentity, std::io::Error>>) -> Seq<
    Option<RelayIdentityView>,
> {
    outcomes.map_values(
        |o: Result<RelayIdentity, std::io::Error>|
            match o {
                Ok(id) => Some(id@),
                Err(_) => None,
            },
    )
}

/// Builds a topology from the DESCRIBE outcomes for `addresses`, one per
/// address in the same order: every relay that answered is added with
/// its main address; every address that failed is reported with its
/// error.
pub fn assemble_topology(
    addresses: &[String],
    outcomes: Vec<Result<RelayIdentity, std::io::Error>>,
) -> (r: (Topology, Vec<UnreachableRelay>))
    requires
        outcomes@.len() == addresses@.len(),
    ensures
        r.0@ == spec_discovered(outcome_views(outcomes@)),
        r.1@.len() == spec_failed_positions(outcome_views(outcomes@)).len(),
        forall|k: int|
            0 <= k < r.1@.len() ==> (#[trigger] r.1@[k]).address@
                == addresses@[spec_failed_positions(outcome_views(outcomes@))[k]]@ && Err::<
                RelayIdentity,
                std::io::Error,
            >(r.1@[k].error) == outcomes@[spec_failed_positions(outcome_views(outcomes@))[k]],
{
    let ghost views = outcome_views(outcomes@);
    let mut topology = Topology::new();
    let mut unreachable: Vec<UnreachableRelay> = Vec::new();
    let ghost all = outcomes@;
    let mut remaining = outcomes;
    let mut i: usize = 0;
    assert(views.take(0) =~= Seq::<Option<RelayIdentityView>>::empty());
    while i < addresses.len()
        invariant
            i <= addresses@.len() == views.len(),
            views == outcome_views(all),
            remaining@ == all.skip(i as int),
            topology@ == spec_discovered(views.take(i as int)),
            unreachable@.len() == spec_failed_positions(views.take(i as int)).len(),
            forall|k: int|
                0 <= k < unreachable@.len() ==> (#[trigger] unreachable@[k]).address@
                    == addresses@[spec_failed_positions(views.take(i as int))[k]]@ && Err::<
                    RelayIdentity,
                    std::io::Error,
                >(unreachable@[k].error) == all[spec_failed_positions(views.take(i as int))[k]],
        decreases addresses@.len() - i,
    {
        let ghost before = remaining@;
        let outcome = remaining.remove(0);
        proof {
            assert(outcome == all[i as int]);
            assert(remaining@ =~= all.skip(i + 1));
            assert(views.take(i + 1).drop_last() =~= views.take(i as int));
            assert(views.take(i + 1).last() == views[i as int]);
        }
        match outcome {
            Ok(identity) => {
                topology.add_relay(
                    RelayInfo {
                        id: identity.id,
                        address: identity.main_addr,
                        public_key: identity.public_key,
                    },
                );
            },
            Err(error) => {
                let ghost prev = unreachable@;
                unreachable.push(UnreachableRelay { address: addresses[i].clone(), error });
                proof {
                    let fp = spec_failed_positions(views.take(i + 1));
                    assert(fp == spec_failed_positions(views.take(i as int)).push(i as int));
                    assert forall|k: int| 0 <= k < unreachable@.len() implies (
                    #[trigger] unreachable@[k]).address@ == addresses@[fp[k]]@ && Err::<
                        RelayIdentity,
                        std::io::Error,
                    >(unreachable@[k].error) == all[fp[k]] by {
                        if k < prev.len() {
                            assert(unreachable@[k] == prev[k]);
                        }
                    }
                }
            },
        }
        i = i + 1;
    }
    assert(views.take(addresses@.len() as int) =~= views);
    (topology, unreachable)
}

} // verus!
