//! Input checks run before any computation: zones must exist, some zone
//! must have a centroid in the network, and the centroids must be
//! mutually reachable.
use vstd::prelude::*;

use super::connectivity::{
    centroid_zones,
    listed,
    component_views,
    is_component_split,
    labelled_zones,
    linked,
    zone_scc,
};
use super::error::{InvalidInputReason, PipelineError};
use crate::gmns::meso::network::{Network, NetworkView};
use crate::gmns::types::ZoneID;

verus! {

broadcast use vstd::std_specs::hash::group_hash_axioms;

/// The zone IDs of `zones` that have no centroid in the network, in input order.
pub open spec fn zones_without_centroid(net: NetworkView, zones: Seq<ZoneID>) -> Seq<ZoneID>
    decreases zones.len(),
{
    if zones.len() == 0 {
        Seq::empty()
    } else {
        let before = zones_without_centroid(net, zones.drop_last());
        if net.zone_centroids.contains_key(zones.last()) {
            before
        } else {
            before.push(zones.last())
        }
    }
}

/// Every two positions of the centroid list are linked: all centroids
/// reach one another.
pub open spec fn mutually_linked(net: NetworkView, cz: Seq<ZoneID>) -> bool {
    forall|a: int, b: int| 0 <= a < cz.len() && 0 <= b < cz.len() ==> #[trigger] linked(net, cz, a, b)
}

/// Check that zones were given and that at least one of them has a
/// centroid node in the network.
pub fn check_zone_centroids(network: &Network, zone_ids: &[ZoneID]) -> (r: Result<(), PipelineError>)
    ensures
        match r {
            Ok(()) => zone_ids@.len() > 0 && zones_without_centroid(network@, zone_ids@).len()
                < zone_ids@.len() && exists|k: int|
                0 <= k < zone_ids@.len() && network@.zone_centroids.contains_key(#[trigger] zone_ids@[k]),
            Err(PipelineError::InvalidInput(InvalidInputReason::NoZones)) => zone_ids@.len() == 0,
            Err(
                PipelineError::InvalidInput(InvalidInputReason::NoCentroids { zone_count, missing_ids }),
            ) => zone_ids@.len() > 0 && zone_count == zone_ids@.len() && missing_ids@
                == zones_without_centroid(network@, zone_ids@) && missing_ids@.len()
                == zone_ids@.len() && forall|k: int|
                0 <= k < zone_ids@.len() ==> !network@.zone_centroids.contains_key(#[trigger] zone_ids@[k]),
            _ => false,
        },
{
    if zone_ids.len() == 0 {
        return Err(PipelineError::InvalidInput(InvalidInputReason::NoZones));
    }
    let mut missing_ids: Vec<ZoneID> = Vec::new();
    let mut i: usize = 0;
    while i < zone_ids.len()
        invariant
            i <= zone_ids@.len(),
            missing_ids@ == zones_without_centroid(network@, zone_ids@.take(i as int)),
        decreases zone_ids@.len() - i,
    {
        let z = zone_ids[i];
        proof {
            assert(zone_ids@.take(i + 1).drop_last() =~= zone_ids@.take(i as int));
        }
        if network.get_zone_centroid(z).is_err() {
            missing_ids.push(z);
        }
        i = i + 1;
    }
    assert(zone_ids@.take(zone_ids@.len() as int) =~= zone_ids@);
    proof {
        law_missing_zones(network@, zone_ids@, 0);
    }
    if missing_ids.len() == zone_ids.len() {
        return Err(
            PipelineError::InvalidInput(
                InvalidInputReason::NoCentroids { zone_count: zone_ids.len(), missing_ids },
            ),
        );
    }
    proof {
        lemma_without_centroid_len(network@, zone_ids@);
    }
    Ok(())
}

/// The zones without a centroid are exactly the zones of `zones` that
/// have none; together with the centroid zones they account for every
/// entry of `zones`; and all entries lack a centroid exactly when no zone
/// of `zones` has one. They are kept in input order.
pub proof fn law_missing_zones(net: NetworkView, zones: Seq<ZoneID>, z: ZoneID)
    ensures
        zones_without_centroid(net, zones) == zones.filter(|k: ZoneID| !net.zone_centroids.contains_key(k)),
        zones_without_centroid(net, zones).contains(z) <==> (zones.contains(z)
            && !net.zone_centroids.contains_key(z)),
        zones_without_centroid(net, zones).len() + centroid_zones(net, zones).len() == zones.len(),
        zones_without_centroid(net, zones).len() == zones.len() <==> (forall|k: int|
            0 <= k < zones.len() ==> !net.zone_centroids.contains_key(#[trigger] zones[k])),
    decreases zones.len(),
{
    reveal(Seq::filter);
    if zones.len() > 0 {
        let init = zones.drop_last();
        let last = zones.last();
        law_missing_zones(net, init, z);
        lemma_without_centroid_len(net, init);
        assert(zones =~= init.push(last));
        if zones.contains(z) && z != last {
            let j = choose|j: int| 0 <= j < zones.len() && zones[j] == z;
            assert(init[j] == z);
        }
        if init.contains(z) {
            let j = choose|j: int| 0 <= j < init.len() && init[j] == z;
            assert(zones[j] == z);
        }
        assert(zones[zones.len() - 1] == last);
        let before = zones_without_centroid(net, init);
        if !net.zone_centroids.contains_key(last) {
            let after = before.push(last);
            assert(after[before.len() as int] == last);
            if after.contains(z) && z != last {
                let j = choose|j: int| 0 <= j < after.len() && after[j] == z;
                assert(before[j] == z);
            }
            if before.contains(z) {
                let j = choose|j: int| 0 <= j < before.len() && before[j] == z;
                assert(after[j] == z);
            }
        }
        if forall|k: int| 0 <= k < zones.len() ==> !net.zone_centroids.contains_key(#[trigger] zones[k]) {
            assert forall|k: int| 0 <= k < init.len() implies !net.zone_centroids.contains_key(
                #[trigger] init[k],
            ) by {
                assert(init[k] == zones[k]);
            }
        }
        if zones_without_centroid(net, zones).len() == zones.len() {
            assert forall|k: int| 0 <= k < zones.len() implies !net.zone_centroids.contains_key(
                #[trigger] zones[k],
            ) by {
                if k < init.len() {
                    assert(init[k] == zones[k]);
                }
            }
        }
    }
}

proof fn lemma_without_centroid_len(net: NetworkView, zones: Seq<ZoneID>)
    ensures
        zones_without_centroid(net, zones).len() <= zones.len(),
    decreases zones.len(),
{
    if zones.len() > 0 {
        lemma_without_centroid_len(net, zones.drop_last());
    }
}

/// A component that lists a zone holds some position with its label.
proof fn lemma_labelled_nonempty(cz: Seq<ZoneID>, order: Seq<usize>, label: Seq<int>, c: int)
    requires
        labelled_zones(cz, order, label, c).len() > 0,
    ensures
        exists|t: int| 0 <= t < order.len() && label[#[trigger] order[t] as int] == c,
    decreases order.len(),
{
    let before = labelled_zones(cz, order.drop_last(), label, c);
    if label[order.last() as int] == c {
        let t = order.len() - 1;
        assert(label[order[t] as int] == c);
    } else {
        lemma_labelled_nonempty(cz, order.drop_last(), label, c);
        let t = choose|t: int| 0 <= t < order.drop_last().len() && label[order.drop_last()[t] as int] == c;
        assert(order[t] == order.drop_last()[t]);
    }
}

/// A split into components has a single component exactly when all
/// centroids reach one another (for at least one centroid).
pub proof fn law_single_component_iff_linked(
    net: NetworkView,
    cz: Seq<ZoneID>,
    comps: Seq<Seq<ZoneID>>,
    order: Seq<usize>,
    label: Seq<int>,
)
    requires
        cz.len() >= 1,
        is_component_split(net, cz, comps, order, label),
    ensures
        comps.len() >= 1,
        comps.len() == 1 <==> mutually_linked(net, cz),
{
    assert(0 <= label[0] < comps.len());
    if comps.len() == 1 {
        assert forall|a: int, b: int| 0 <= a < cz.len() && 0 <= b < cz.len() implies #[trigger] linked(
            net,
            cz,
            a,
            b,
        ) by {
            assert(0 <= label[a] < comps.len());
            assert(0 <= label[b] < comps.len());
        }
    } else {
        assert(comps[0] == labelled_zones(cz, order, label, 0));
        assert(comps[1] == labelled_zones(cz, order, label, 1));
        lemma_labelled_nonempty(cz, order, label, 0);
        lemma_labelled_nonempty(cz, order, label, 1);
        let t0 = choose|t: int| 0 <= t < order.len() && label[#[trigger] order[t] as int] == 0;
        let t1 = choose|t: int| 0 <= t < order.len() && label[#[trigger] order[t] as int] == 1;
        let a = order[t0] as int;
        let b = order[t1] as int;
        assert(0 <= a < cz.len() && 0 <= b < cz.len());
        assert(!linked(net, cz, a, b));
    }
}

/// `r` is the verdict on the connectivity of the centroids of `zones`:
/// success when there are fewer than two or all reach one another, and
/// otherwise the error that lists the strongly-connected components.
pub open spec fn connectivity_verdict(net: NetworkView, zones: Seq<ZoneID>, r: Result<(), PipelineError>) -> bool {
    match r {
        Ok(()) => centroid_zones(net, zones).len() <= 1 || mutually_linked(net, centroid_zones(net, zones)),
        Err(PipelineError::InvalidInput(InvalidInputReason::DisconnectedComponents { components })) => {
            &&& centroid_zones(net, zones).len() >= 2
            &&& !mutually_linked(net, centroid_zones(net, zones))
            &&& components@.len() > 1
            &&& forall|z: ZoneID|
                listed(component_views(components@), z) <==> (zones.contains(z) && net.zone_centroids.contains_key(z))
            &&& exists|order: Seq<usize>, label: Seq<int>|
                is_component_split(net, centroid_zones(net, zones), component_views(components@), order, label)
        },
        _ => false,
    }
}

/// Check that the zone centroids are mutually reachable: the error lists
/// the strongly-connected components when there are several.
pub fn check_zone_connectivity(network: &Network, zone_ids: &[ZoneID]) -> (r: Result<(), PipelineError>)
    ensures
        connectivity_verdict(network@, zone_ids@, r),
{
    let components = zone_scc(network, zone_ids);
    let ghost net = network@;
    let ghost cz = centroid_zones(net, zone_ids@);
    proof {
        if cz.len() >= 2 {
            let (order, label) = choose|order: Seq<usize>, label: Seq<int>|
                is_component_split(net, cz, component_views(components@), order, label);
            law_single_component_iff_linked(net, cz, component_views(components@), order, label);
            assert(component_views(components@).len() == components@.len());
        }
    }
    if components.len() > 1 {
        let res: Result<(), PipelineError> = Err(
            PipelineError::InvalidInput(InvalidInputReason::DisconnectedComponents { components }),
        );
        assert(connectivity_verdict(net, zone_ids@, res));
        return res;
    }
    Ok(())
}

} // verus!
