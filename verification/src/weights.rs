//! Derives, for a client in one zone, the multiplier of every zone.
//!
//! A multiplier is a fixed-point fraction: the number `m` stands for the real
//! `m / ONE`. Every fraction of the derivation is rounded down to such a
//! number. The average capacity of a zone, `total / zones`, is never divided
//! out: a capacity `c` is compared with it as `c * zones` against `total`.

use crate::arith::{lemma_floor_bounds, lemma_product_bound, lemma_share_bounds};
use crate::backend::{Error, Zone, MAX_TOTAL_CAPACITY};
use crate::capacity::{capacity_table, ZoneCapacities};
use crate::zone_table::{
    ascending, holds_zone, lemma_total_value_split, lemma_value_at, lemma_value_le_total,
    total_value, value_of, value_or_zero, ZoneEntry, ZoneTable,
};
use vstd::prelude::*;

verus! {

/// The multiplier of each zone that a client sends traffic to. A zone without
/// a row gets none. The weight of a backend for the client is the multiplier
/// of its zone times its capacity.
pub type MultiplierMap = ZoneTable;

/// The fixed-point number that stands for 1.
pub const ONE: u64 = 0x4000_0000_0000_0000;

/// What the sampler asks of a multiplier table: ascending zones and no
/// multiplier above `ONE`.
pub open spec fn multiplier_table(multipliers: Seq<ZoneEntry>) -> bool {
    &&& ascending(multipliers)
    &&& forall|i: int| 0 <= i < multipliers.len() ==> (#[trigger] multipliers[i]).value <= ONE
}

/// Capacity of the client's own zone; 0 where the zone has no backend.
pub open spec fn home_capacity(caps: Seq<ZoneEntry>, home: Zone) -> nat {
    value_or_zero(caps, home)
}

/// By how much the zone of row `i` lies above the average capacity, times the
/// number of zones; 0 for a zone at or below the average.
pub open spec fn excess(caps: Seq<ZoneEntry>, i: int) -> nat {
    let scaled = (caps[i].value as nat) * caps.len();
    if scaled > total_value(caps) {
        (scaled - total_value(caps)) as nat
    } else {
        0
    }
}

/// Sum of the excess of the first `k` rows.
pub open spec fn surplus_upto(caps: Seq<ZoneEntry>, k: int) -> nat
    decreases k,
{
    if k <= 0 {
        0
    } else {
        surplus_upto(caps, k - 1) + excess(caps, k - 1)
    }
}

/// The surplus capacity of the registry, times the number of zones.
pub open spec fn surplus(caps: Seq<ZoneEntry>) -> nat {
    surplus_upto(caps, caps.len() as int)
}

/// Whether the client keeps all its traffic in its own zone: the zone is at
/// or above the average, or no zone has capacity to spare.
pub open spec fn stays_local(caps: Seq<ZoneEntry>, home: Zone) -> bool {
    home_capacity(caps, home) * caps.len() >= total_value(caps) || surplus(caps) == 0
}

/// The fraction of its traffic that a client below the average keeps in its
/// own zone: the zone's capacity over the average.
pub open spec fn in_zone_fraction(caps: Seq<ZoneEntry>, home: Zone) -> nat {
    ((ONE as nat) * (home_capacity(caps, home) * caps.len())) / total_value(caps)
}

/// The fraction that such a client sends to other zones.
pub open spec fn cross_zone_fraction(caps: Seq<ZoneEntry>, home: Zone) -> nat {
    (ONE - in_zone_fraction(caps, home)) as nat
}

/// The fraction of the traffic of a client below the average that goes to
/// the zone of row `i`: the in-zone fraction for its own zone, nothing for a
/// zone at or below the average, and for any other zone its part of the
/// surplus, taken of the cross-zone fraction.
pub open spec fn zone_weight(caps: Seq<ZoneEntry>, home: Zone, i: int) -> nat {
    if caps[i].zone == home {
        in_zone_fraction(caps, home)
    } else if excess(caps, i) == 0 {
        0
    } else {
        (cross_zone_fraction(caps, home) * excess(caps, i)) / surplus(caps)
    }
}

/// The multiplier of the zone of row `i` for a client below the average: the
/// weight of the zone over its capacity.
pub open spec fn spill_multiplier(caps: Seq<ZoneEntry>, home: Zone, i: int) -> nat {
    zone_weight(caps, home, i) / (caps[i].value as nat)
}

/// The multipliers of a client below the average: one row for each zone of
/// the registry.
pub open spec fn spill_multipliers(caps: Seq<ZoneEntry>, home: Zone) -> Seq<ZoneEntry> {
    Seq::new(
        caps.len(),
        |i: int| ZoneEntry { zone: caps[i].zone, value: spill_multiplier(caps, home, i) as u64 },
    )
}

/// The multipliers of a client in zone `home`: its own zone alone, at `ONE`,
/// where it keeps its traffic there, and else the rows of `spill_multipliers`.
pub open spec fn multipliers(caps: Seq<ZoneEntry>, home: Zone) -> Seq<ZoneEntry> {
    if stays_local(caps, home) {
        seq![ZoneEntry { zone: home, value: ONE }]
    } else {
        spill_multipliers(caps, home)
    }
}

/// A capacity table has no more rows than units of capacity.
pub proof fn lemma_zone_count_le_total(caps: Seq<ZoneEntry>)
    requires
        forall|i: int| 0 <= i < caps.len() ==> (#[trigger] caps[i]).value > 0,
    ensures
        caps.len() <= total_value(caps),
    decreases caps.len(),
{
    if caps.len() > 0 {
        let front = caps.drop_last();
        assert forall|i: int| 0 <= i < front.len() implies (#[trigger] front[i]).value > 0 by {
            assert(front[i] == caps[i]);
        }
        lemma_zone_count_le_total(front);
        assert(caps[caps.len() - 1].value > 0);
    }
}

/// The capacity of a zone, taken times the number of zones, fits in 64 bits.
pub proof fn lemma_scaled_capacity_bound(caps: Seq<ZoneEntry>, capacity: nat)
    requires
        capacity_table(caps),
        capacity <= total_value(caps),
    ensures
        capacity * caps.len() <= MAX_TOTAL_CAPACITY * MAX_TOTAL_CAPACITY,
        capacity * caps.len() <= caps.len() * total_value(caps),
{
    lemma_zone_count_le_total(caps);
    lemma_product_bound(capacity, caps.len(), MAX_TOTAL_CAPACITY as nat, MAX_TOTAL_CAPACITY as nat);
    lemma_product_bound(capacity, caps.len(), total_value(caps), caps.len());
    assert(total_value(caps) * caps.len() == caps.len() * total_value(caps)) by (nonlinear_arith);
}

/// The capacity of the client's zone is part of the total.
pub proof fn lemma_home_capacity_le_total(caps: Seq<ZoneEntry>, home: Zone)
    ensures
        home_capacity(caps, home) <= total_value(caps),
{
    if holds_zone(caps, home) {
        let i = choose|i: int| 0 <= i < caps.len() && (#[trigger] caps[i]).zone == home;
        lemma_value_le_total(caps, i);
    }
}

/// The excess of each of the first `k` rows is part of their surplus, and
/// the surplus of the first `k` rows is at most the number of zones times
/// the capacity of the registry.
pub proof fn lemma_surplus_bounds(caps: Seq<ZoneEntry>, k: int)
    requires
        capacity_table(caps),
        0 <= k <= caps.len(),
    ensures
        forall|i: int| 0 <= i < k ==> #[trigger] excess(caps, i) <= surplus_upto(caps, k),
        surplus_upto(caps, k) <= caps.len() * total_value(caps.take(k)),
        surplus_upto(caps, k) <= caps.len() * total_value(caps),
        surplus_upto(caps, k) <= MAX_TOTAL_CAPACITY * MAX_TOTAL_CAPACITY,
    decreases k,
{
    let n = caps.len();
    lemma_total_value_split(caps, k);
    lemma_zone_count_le_total(caps);
    if k > 0 {
        lemma_surplus_bounds(caps, k - 1);
        assert(caps.take(k).drop_last() =~= caps.take(k - 1));
        let c = caps[k - 1].value as nat;
        let before = total_value(caps.take(k - 1));
        assert(total_value(caps.take(k)) == before + c);
        assert(excess(caps, k - 1) <= c * n);
        assert(n * (before + c) == n * before + c * n) by (nonlinear_arith);
    } else {
        assert(caps.take(0) =~= Seq::<ZoneEntry>::empty());
    }
    lemma_product_bound(n, total_value(caps.take(k)), n, total_value(caps));
    lemma_product_bound(
        n,
        total_value(caps),
        MAX_TOTAL_CAPACITY as nat,
        MAX_TOTAL_CAPACITY as nat,
    );
}

/// Every weight of a client below the average is at most `ONE`, and so is
/// every multiplier.
pub proof fn lemma_spill_bounds(caps: Seq<ZoneEntry>, home: Zone, i: int)
    requires
        capacity_table(caps),
        !stays_local(caps, home),
        0 <= i < caps.len(),
    ensures
        in_zone_fraction(caps, home) < ONE,
        0 < cross_zone_fraction(caps, home) <= ONE,
        zone_weight(caps, home, i) <= ONE,
        spill_multiplier(caps, home, i) <= zone_weight(caps, home, i),
{
    let kept = home_capacity(caps, home) * caps.len();
    lemma_share_bounds(ONE as nat, kept, total_value(caps));
    lemma_surplus_bounds(caps, caps.len() as int);
    lemma_share_bounds(cross_zone_fraction(caps, home), excess(caps, i), surplus(caps));
    lemma_floor_bounds(zone_weight(caps, home, i), caps[i].value as nat);
}

/// Home-zone dominance: a client whose zone is at or above the average gets
/// one multiplier, `ONE` for its own zone, and none for any other zone.
pub proof fn lemma_home_zone_dominance(caps: Seq<ZoneEntry>, home: Zone)
    requires
        home_capacity(caps, home) * caps.len() >= total_value(caps),
    ensures
        multipliers(caps, home) == seq![ZoneEntry { zone: home, value: ONE }],
        value_of(multipliers(caps, home), home) == Some(ONE),
        forall|zone: Zone| zone != home ==> #[trigger] value_of(multipliers(caps, home), zone) is None,
{
    let only = multipliers(caps, home);
    assert(only[0].zone == home);
    lemma_value_at(only, 0);
    assert forall|zone: Zone| zone != home implies #[trigger] value_of(only, zone) is None by {
        if holds_zone(only, zone) {
            let j = choose|j: int| 0 <= j < only.len() && (#[trigger] only[j]).zone == zone;
            assert(only[j] == only[0]);
        }
    }
}

/// The multipliers of a client are a table that the sampler accepts.
pub proof fn lemma_multipliers_table(caps: Seq<ZoneEntry>, home: Zone)
    requires
        capacity_table(caps),
    ensures
        multiplier_table(multipliers(caps, home)),
{
    let rows = multipliers(caps, home);
    if !stays_local(caps, home) {
        assert forall|i: int, j: int| 0 <= i < j < rows.len() implies (#[trigger] rows[i]).zone.0
            < (#[trigger] rows[j]).zone.0 by {
            assert(caps[i].zone.0 < caps[j].zone.0);
        }
        assert forall|i: int| 0 <= i < rows.len() implies (#[trigger] rows[i]).value <= ONE by {
            lemma_spill_bounds(caps, home, i);
        }
    }
}

/// The surplus of a registry, times the number of zones.
pub fn scaled_surplus(capacities: &ZoneCapacities) -> (sum: u64)
    requires
        capacities.wf(),
    ensures
        sum == surplus(capacities.per_zone@),
{
    let zones: u64 = capacities.zone_count as u64;
    let mut sum: u64 = 0;
    let mut i: usize = 0;
    while i < capacities.per_zone.len()
        invariant
            capacities.wf(),
            zones == capacities.per_zone@.len(),
            i <= capacities.per_zone@.len(),
            sum == surplus_upto(capacities.per_zone@, i as int),
        decreases capacities.per_zone@.len() - i,
    {
        let capacity: u64 = capacities.per_zone.entry(i).value;
        proof {
            let caps = capacities.per_zone@;
            lemma_value_le_total(caps, i as int);
            lemma_scaled_capacity_bound(caps, capacity as nat);
            lemma_surplus_bounds(caps, i + 1);
        }
        let scaled: u64 = capacity * zones;
        if scaled > capacities.total {
            sum = sum + (scaled - capacities.total);
        }
        i = i + 1;
    }
    sum
}

/// The multipliers of a client in zone `home`, from the capacities of the
/// registry. A zone without backends is accepted as the home zone.
pub fn zone_multipliers(capacities: &ZoneCapacities, home: Zone) -> (map: MultiplierMap)
    requires
        capacities.wf(),
    ensures
        map@ == multipliers(capacities.per_zone@, home),
        multiplier_table(map@),
{
    let ghost caps = capacities.per_zone@;
    let zones: u64 = capacities.zone_count as u64;
    let total: u64 = capacities.total;
    let own: u64 = match capacities.per_zone.get(home) {
        Some(capacity) => capacity,
        None => 0,
    };
    proof {
        lemma_home_capacity_le_total(caps, home);
        lemma_scaled_capacity_bound(caps, own as nat);
    }
    let spare: u64 = scaled_surplus(capacities);
    let mut map = ZoneTable::new();
    if own * zones >= total || spare == 0 {
        map.append(home, ONE);
        assert(map@ =~= multipliers(caps, home));
        return map;
    }
    proof {
        lemma_product_bound(ONE as nat, (own * zones) as nat, ONE as nat, u64::MAX as nat);
        lemma_share_bounds(ONE as nat, (own * zones) as nat, total as nat);
    }
    let in_zone: u64 = ((ONE as u128 * (own * zones) as u128) / (total as u128)) as u64;
    let cross_zone: u64 = ONE - in_zone;
    let mut i: usize = 0;
    while i < capacities.per_zone.len()
        invariant
            capacities.wf(),
            caps == capacities.per_zone@,
            zones == caps.len(),
            total == total_value(caps),
            spare == surplus(caps),
            !stays_local(caps, home),
            in_zone == in_zone_fraction(caps, home),
            cross_zone == cross_zone_fraction(caps, home),
            i <= caps.len(),
            map.wf(),
            map@ == spill_multipliers(caps, home).take(i as int),
            multiplier_table(map@),
        decreases caps.len() - i,
    {
        let entry: ZoneEntry = capacities.per_zone.entry(i);
        proof {
            lemma_value_le_total(caps, i as int);
            lemma_scaled_capacity_bound(caps, entry.value as nat);
            lemma_surplus_bounds(caps, caps.len() as int);
            lemma_spill_bounds(caps, home, i as int);
            lemma_product_bound(
                cross_zone as nat,
                excess(caps, i as int),
                ONE as nat,
                u64::MAX as nat,
            );
        }
        let scaled: u64 = entry.value * zones;
        let weight: u64 = if entry.zone.0 == home.0 {
            in_zone
        } else if scaled <= total {
            0
        } else {
            ((cross_zone as u128 * (scaled - total) as u128) / (spare as u128)) as u64
        };
        let multiplier: u64 = weight / entry.value;
        proof {
            let rows = spill_multipliers(caps, home);
            assert(weight == zone_weight(caps, home, i as int));
            assert(multiplier == spill_multiplier(caps, home, i as int));
            assert(rows.take(i + 1) =~= rows.take(i as int).push(rows[i as int]));
            if i > 0 {
                assert(map@.last() == rows[i - 1]);
                assert(caps[i - 1].zone.0 < caps[i as int].zone.0);
            }
        }
        map.append(entry.zone, multiplier);
        i = i + 1;
    }
    proof {
        assert(spill_multipliers(caps, home).take(i as int) =~= spill_multipliers(caps, home));
    }
    map
}

/// The multipliers of a client whose zone must have backends.
///
/// Fails with `UnknownHomeZone` exactly when the registry has no backend in
/// `home`.
pub fn zone_multipliers_known_home(capacities: &ZoneCapacities, home: Zone) -> (result: Result<
    MultiplierMap,
    Error,
>)
    requires
        capacities.wf(),
    ensures
        result is Err <==> !holds_zone(capacities.per_zone@, home),
        result matches Err(error) ==> error == Error::UnknownHomeZone,
        result matches Ok(map) ==> map@ == multipliers(capacities.per_zone@, home)
            && multiplier_table(map@),
{
    match capacities.per_zone.get(home) {
        Some(_) => Ok(zone_multipliers(capacities, home)),
        None => Err(Error::UnknownHomeZone),
    }
}

} // verus!
