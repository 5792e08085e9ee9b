//! The multipliers of a client form a distribution over the zones: weighted
//! by the capacity of each zone they add up to `ONE`, but for what rounding
//! down has taken away.

use crate::arith::lemma_floor_bounds;
use crate::backend::Zone;
use crate::capacity::capacity_table;
use crate::weights::{
    cross_zone_fraction, excess, home_capacity, in_zone_fraction, lemma_spill_bounds, multipliers,
    spill_multiplier, spill_multipliers, stays_local, surplus, surplus_upto, zone_weight, ONE,
};
use crate::zone_table::{
    ascending, holds_zone, lemma_prefix_step, lemma_value_at, lemma_value_le_total, total_value,
    value_or_zero, ZoneEntry,
};
use vstd::prelude::*;

verus! {

/// Sum over the first `k` zones of the registry of the zone's multiplier times
/// its capacity. A zone without a multiplier counts as 0.
pub open spec fn normalization_upto(
    caps: Seq<ZoneEntry>,
    multipliers: Seq<ZoneEntry>,
    k: int,
) -> nat
    decreases k,
{
    if k <= 0 {
        0
    } else {
        normalization_upto(caps, multipliers, k - 1) + value_or_zero(multipliers, caps[k - 1].zone)
            * (caps[k - 1].value as nat)
    }
}

/// Sum over all zones of the registry of the zone's multiplier times its
/// capacity: the share of the client's traffic that the multipliers hand out,
/// as a fixed-point fraction.
pub open spec fn normalization(caps: Seq<ZoneEntry>, multipliers: Seq<ZoneEntry>) -> nat {
    normalization_upto(caps, multipliers, caps.len() as int)
}

/// Sum of the weights of the first `k` zones for a client below the average.
spec fn weight_upto(caps: Seq<ZoneEntry>, home: Zone, k: int) -> nat
    decreases k,
{
    if k <= 0 {
        0
    } else {
        weight_upto(caps, home, k - 1) + zone_weight(caps, home, k - 1)
    }
}

/// 1 where the home zone is among the first `k` rows, else 0.
spec fn home_seen(caps: Seq<ZoneEntry>, home: Zone, k: int) -> nat {
    if holds_zone(caps.take(k), home) {
        1
    } else {
        0
    }
}

/// The rows of `spill_multipliers` carry the zones of the registry, in order.
pub proof fn lemma_spill_multipliers_ascending(caps: Seq<ZoneEntry>, home: Zone)
    requires
        ascending(caps),
    ensures
        ascending(spill_multipliers(caps, home)),
{
    let rows = spill_multipliers(caps, home);
    assert forall|i: int, j: int| 0 <= i < j < rows.len() implies (#[trigger] rows[i]).zone.0 < (
    #[trigger] rows[j]).zone.0 by {
        assert(caps[i].zone.0 < caps[j].zone.0);
    }
}

/// The weights of a client below the average, taken times the surplus, lie
/// within one surplus per zone of what the two fractions hand out.
proof fn lemma_weight_sum(caps: Seq<ZoneEntry>, home: Zone, k: int)
    requires
        capacity_table(caps),
        !stays_local(caps, home),
        0 <= k <= caps.len(),
    ensures
        surplus(caps) * weight_upto(caps, home, k) <= cross_zone_fraction(caps, home)
            * surplus_upto(caps, k) + surplus(caps) * in_zone_fraction(caps, home) * home_seen(
            caps,
            home,
            k,
        ),
        cross_zone_fraction(caps, home) * surplus_upto(caps, k) + surplus(caps)
            * in_zone_fraction(caps, home) * home_seen(caps, home, k) + k <= surplus(caps)
            * weight_upto(caps, home, k) + surplus(caps) * k,
    decreases k,
{
    let spare = surplus(caps);
    let kept = in_zone_fraction(caps, home);
    let sent = cross_zone_fraction(caps, home);
    if k == 0 {
        assert(caps.take(0) =~= Seq::<ZoneEntry>::empty());
        assert(!holds_zone(caps.take(0), home));
        assert(spare * 0 == 0) by (nonlinear_arith);
        assert(sent * 0 == 0) by (nonlinear_arith);
        assert(spare * kept * 0 == 0) by (nonlinear_arith);
    } else {
        let i = k - 1;
        lemma_weight_sum(caps, home, i);
        lemma_prefix_step(caps, home, i);
        lemma_spill_bounds(caps, home, i);
        let sum = weight_upto(caps, home, i);
        let weight = zone_weight(caps, home, i);
        let spread = surplus_upto(caps, i);
        let more = excess(caps, i);
        assert(spare * (sum + weight) == spare * sum + spare * weight) by (nonlinear_arith);
        assert(sent * (spread + more) == sent * spread + sent * more) by (nonlinear_arith);
        assert(spare * (i + 1) == spare * i + spare) by (nonlinear_arith);
        assert(spare * kept * 0 == 0) by (nonlinear_arith);
        assert(spare * kept * 1 == spare * kept) by (nonlinear_arith);
        if caps[i].zone == home {
            lemma_value_at(caps, i);
            assert(home_capacity(caps, home) == caps[i].value);
            assert(more == 0);
            assert(home_seen(caps, home, i) == 0);
            assert(home_seen(caps, home, k) == 1);
            assert(sent * 0 == 0) by (nonlinear_arith);
            assert(spare * weight == spare * kept);
        } else {
            assert(home_seen(caps, home, k) == home_seen(caps, home, i));
            assert(weight == (sent * more) / spare) by {
                if more == 0 {
                    assert(sent * 0 == 0) by (nonlinear_arith);
                }
            }
            lemma_floor_bounds(sent * more, spare);
            assert(weight * spare == spare * weight) by (nonlinear_arith);
        }
    }
}

/// The multipliers of a client below the average, each taken times the
/// capacity of its zone, lie within one capacity per zone below the weights.
proof fn lemma_normalization_near_weights(caps: Seq<ZoneEntry>, home: Zone, k: int)
    requires
        capacity_table(caps),
        !stays_local(caps, home),
        0 <= k <= caps.len(),
    ensures
        normalization_upto(caps, spill_multipliers(caps, home), k) <= weight_upto(caps, home, k),
        weight_upto(caps, home, k) + k <= normalization_upto(
            caps,
            spill_multipliers(caps, home),
            k,
        ) + total_value(caps.take(k)),
    decreases k,
{
    let rows = spill_multipliers(caps, home);
    if k == 0 {
        assert(caps.take(0) =~= Seq::<ZoneEntry>::empty());
    } else {
        let i = k - 1;
        lemma_normalization_near_weights(caps, home, i);
        lemma_spill_multipliers_ascending(caps, home);
        lemma_value_at(rows, i);
        lemma_spill_bounds(caps, home, i);
        let weight = zone_weight(caps, home, i);
        let capacity = caps[i].value as nat;
        assert(value_or_zero(rows, caps[i].zone) == spill_multiplier(caps, home, i));
        lemma_floor_bounds(weight, capacity);
        assert(caps.take(k).drop_last() =~= caps.take(i));
    }
}

/// With the home zone as the only row, at `ONE`, the sum over the first `k`
/// zones is `ONE` times the capacity that the home zone has among them.
proof fn lemma_local_normalization_upto(caps: Seq<ZoneEntry>, home: Zone, k: int)
    requires
        ascending(caps),
        0 <= k <= caps.len(),
    ensures
        normalization_upto(caps, seq![ZoneEntry { zone: home, value: ONE }], k) == ONE
            * value_or_zero(caps.take(k), home),
    decreases k,
{
    let only = seq![ZoneEntry { zone: home, value: ONE }];
    if k == 0 {
        assert(caps.take(0) =~= Seq::<ZoneEntry>::empty());
        assert(!holds_zone(caps.take(0), home));
    } else {
        let i = k - 1;
        lemma_local_normalization_upto(caps, home, i);
        lemma_prefix_step(caps, home, i);
        assert(only[0].zone == home);
        lemma_value_at(only, 0);
        let capacity = caps[i].value as nat;
        if caps[i].zone == home {
            assert(value_or_zero(only, caps[i].zone) == ONE);
            assert(value_or_zero(caps.take(i), home) == 0);
        } else {
            if holds_zone(only, caps[i].zone) {
                let j = choose|j: int|
                    0 <= j < only.len() && (#[trigger] only[j]).zone == caps[i].zone;
                assert(only[j] == only[0]);
            }
            assert(value_or_zero(only, caps[i].zone) == 0);
            assert(0 * capacity == 0) by (nonlinear_arith);
        }
    }
}

/// For a client that keeps its traffic in its own zone, the multipliers hand
/// out `ONE` for each unit of capacity of that zone.
pub proof fn lemma_local_normalization(caps: Seq<ZoneEntry>, home: Zone)
    requires
        capacity_table(caps),
        stays_local(caps, home),
    ensures
        normalization(caps, multipliers(caps, home)) == ONE * home_capacity(caps, home),
{
    lemma_local_normalization_upto(caps, home, caps.len() as int);
    assert(caps.take(caps.len() as int) =~= caps);
}

/// Normalization: the multipliers of a client, each taken times the capacity
/// of its zone, add up to `ONE`, less what rounding down took: less than one
/// unit of the last fixed-point place for each unit of capacity in the
/// registry.
///
/// This holds of every client that sends traffic to other zones. Of a client
/// that keeps its traffic in its own zone, whose one multiplier is `ONE`, it
/// holds where that zone has capacity 1.
pub proof fn lemma_normalization(caps: Seq<ZoneEntry>, home: Zone)
    requires
        capacity_table(caps),
        !stays_local(caps, home) || home_capacity(caps, home) == 1,
    ensures
        ONE - total_value(caps) < normalization(caps, multipliers(caps, home)) <= ONE,
{
    let n = caps.len() as int;
    if stays_local(caps, home) {
        lemma_local_normalization(caps, home);
        assert(caps[0].value > 0);
        lemma_value_le_total(caps, 0);
    } else {
        let spare = surplus(caps);
        let kept = in_zone_fraction(caps, home);
        let sent = cross_zone_fraction(caps, home);
        let weights = weight_upto(caps, home, n);
        let seen = home_seen(caps, home, n);
        lemma_weight_sum(caps, home, n);
        lemma_normalization_near_weights(caps, home, n);
        lemma_spill_bounds(caps, home, 0);
        assert(caps.take(n) =~= caps);
        assert(spare * kept * seen == spare * kept) by {
            if seen == 0 {
                assert(home_capacity(caps, home) == 0);
                assert(home_capacity(caps, home) * caps.len() == 0) by (nonlinear_arith)
                    requires
                        home_capacity(caps, home) == 0,
                ;
                assert((ONE as nat) * 0 == 0) by (nonlinear_arith);
                assert(kept == 0);
                assert(spare * 0 * 0 == spare * 0) by (nonlinear_arith);
            } else {
                assert(spare * kept * 1 == spare * kept) by (nonlinear_arith);
            }
        }
        assert(sent * spare + spare * kept == spare * ONE) by (nonlinear_arith)
            requires
                sent + kept == ONE,
        ;
        assert(weights <= ONE) by (nonlinear_arith)
            requires
                spare * weights <= spare * ONE,
                spare > 0,
        ;
        assert(ONE < weights + n) by (nonlinear_arith)
            requires
                spare * ONE + n <= spare * weights + spare * n,
                spare > 0,
                n > 0,
        ;
    }
}

} // verus!
