//! Reduces a registry snapshot to the capacity of each zone.

use crate::backend::{
    has_zone, lemma_total_capacity_prefix, lemma_zone_capacity_le_total,
    lemma_zone_capacity_positive, total_capacity, valid_registry, zone_capacity, Backend, Error,
    Zone, MAX_TOTAL_CAPACITY,
};
use crate::zone_table::{
    ascending, credited, holds_zone, lemma_credited, lemma_value_at, total_value, value_of,
    value_or_zero, ZoneEntry, ZoneTable,
};
use vstd::prelude::*;

verus! {

/// Total capacity by zone: one row for each zone that has a backend.
pub type ZoneCapacityMap = ZoneTable;

/// The capacity table of a registry: its backends credited one after another
/// to their zones.
pub open spec fn tally(backends: Seq<Backend>) -> Seq<ZoneEntry>
    decreases backends.len(),
{
    if backends.len() == 0 {
        Seq::empty()
    } else {
        credited(
            tally(backends.drop_last()),
            backends.last().zone,
            backends.last().capacity as u64,
        )
    }
}

/// What the weight formulas ask of a capacity table: ascending zones, at least
/// one row, capacity in every row, and a sum within `MAX_TOTAL_CAPACITY`.
pub open spec fn capacity_table(caps: Seq<ZoneEntry>) -> bool {
    &&& ascending(caps)
    &&& caps.len() > 0
    &&& forall|i: int| 0 <= i < caps.len() ==> (#[trigger] caps[i]).value > 0
    &&& total_value(caps) <= MAX_TOTAL_CAPACITY
}

/// The capacity table of a registry holds exactly the zones that have a
/// backend, each with the capacity of its backends, and adds up to the
/// capacity of the registry.
pub proof fn lemma_tally(backends: Seq<Backend>)
    requires
        total_capacity(backends) <= u64::MAX,
    ensures
        ascending(tally(backends)),
        forall|zone: Zone| #[trigger]
            value_or_zero(tally(backends), zone) == zone_capacity(backends, zone),
        forall|zone: Zone| #[trigger]
            holds_zone(tally(backends), zone) <==> has_zone(backends, zone),
        total_value(tally(backends)) == total_capacity(backends),
        tally(backends).len() <= backends.len(),
    decreases backends.len(),
{
    if backends.len() > 0 {
        let front = backends.drop_last();
        let last = backends.last();
        let amount = last.capacity as u64;
        lemma_tally(front);
        lemma_zone_capacity_le_total(front, last.zone);
        assert(value_or_zero(tally(front), last.zone) == zone_capacity(front, last.zone));
        lemma_credited(tally(front), last.zone, amount);
        assert forall|zone: Zone| #[trigger]
            value_or_zero(tally(backends), zone) == zone_capacity(backends, zone) by {
            assert(value_or_zero(tally(front), zone) == zone_capacity(front, zone));
            if zone != last.zone {
                assert(value_of(tally(backends), zone) == value_of(tally(front), zone));
            }
        }
        assert forall|zone: Zone| #[trigger]
            holds_zone(tally(backends), zone) <==> has_zone(backends, zone) by {
            assert(holds_zone(tally(front), zone) <==> has_zone(front, zone));
            if zone != last.zone {
                assert(value_of(tally(backends), zone) == value_of(tally(front), zone));
            } else {
                assert(backends[backends.len() - 1].zone == zone);
            }
            if has_zone(front, zone) {
                let i = choose|i: int| 0 <= i < front.len() && (#[trigger] front[i]).zone == zone;
                assert(backends[i].zone == zone);
            }
            if has_zone(backends, zone) && zone != last.zone {
                let i = choose|i: int|
                    0 <= i < backends.len() && (#[trigger] backends[i]).zone == zone;
                assert(front[i].zone == zone);
            }
        }
    }
}

/// The capacity table of a valid registry with at least one backend meets
/// what the weight formulas ask of it.
pub proof fn lemma_tally_is_capacity_table(backends: Seq<Backend>)
    requires
        valid_registry(backends),
        backends.len() > 0,
    ensures
        capacity_table(tally(backends)),
{
    let caps = tally(backends);
    lemma_tally(backends);
    assert(backends[0].zone == backends[0].zone);
    assert(has_zone(backends, backends[0].zone));
    assert(holds_zone(caps, backends[0].zone));
    assert forall|i: int| 0 <= i < caps.len() implies (#[trigger] caps[i]).value > 0 by {
        let zone = caps[i].zone;
        lemma_value_at(caps, i);
        assert(holds_zone(caps, zone) <==> has_zone(backends, zone));
        lemma_zone_capacity_positive(backends, zone);
        assert(value_or_zero(caps, zone) == zone_capacity(backends, zone));
    }
}

/// What the aggregation of a registry yields: the capacity of each zone, the
/// capacity of the whole registry and the number of zones.
pub struct ZoneCapacities {
    pub per_zone: ZoneCapacityMap,
    pub total: u64,
    pub zone_count: usize,
}

impl ZoneCapacities {
    /// The three parts agree, and the table is one the weight formulas accept.
    pub open spec fn wf(&self) -> bool {
        &&& capacity_table(self.per_zone@)
        &&& self.total == total_value(self.per_zone@)
        &&& self.zone_count == self.per_zone@.len()
    }
}

/// Sums the capacity of a registry by zone and overall, in one pass.
///
/// Fails with `EmptyRegistry` exactly when the snapshot holds no backend.
pub fn aggregate(backends: &Vec<Backend>) -> (result: Result<ZoneCapacities, Error>)
    requires
        valid_registry(backends@),
    ensures
        result is Err <==> backends@.len() == 0,
        result matches Err(error) ==> error == Error::EmptyRegistry,
        result matches Ok(capacities) ==> {
            &&& capacities.per_zone@ == tally(backends@)
            &&& capacities.total == total_capacity(backends@)
            &&& capacities.zone_count == tally(backends@).len()
            &&& capacities.wf()
        },
{
    if backends.len() == 0 {
        return Err(Error::EmptyRegistry);
    }
    let mut per_zone = ZoneTable::new();
    let mut total: u64 = 0;
    let mut i: usize = 0;
    while i < backends.len()
        invariant
            i <= backends.len(),
            total_capacity(backends@) <= MAX_TOTAL_CAPACITY,
            per_zone.wf(),
            per_zone@ == tally(backends@.take(i as int)),
            total == total_capacity(backends@.take(i as int)),
        decreases backends.len() - i,
    {
        let backend: Backend = backends[i];
        proof {
            let seen = backends@.take(i as int);
            assert(backends@.take(i + 1).drop_last() =~= seen);
            lemma_total_capacity_prefix(backends@, i + 1);
            lemma_tally(seen);
            lemma_zone_capacity_le_total(seen, backend.zone);
            assert(value_or_zero(tally(seen), backend.zone) == zone_capacity(seen, backend.zone));
        }
        total = total + backend.capacity as u64;
        per_zone.credit(backend.zone, backend.capacity as u64);
        i = i + 1;
    }
    proof {
        assert(backends@.take(i as int) =~= backends@);
        lemma_tally(backends@);
        lemma_tally_is_capacity_table(backends@);
    }
    let zone_count: usize = per_zone.len();
    Ok(ZoneCapacities { per_zone, total, zone_count })
}

} // verus!
