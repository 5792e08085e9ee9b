//! What holds of every pass of the sampler, whatever the draws.

use crate::arith::lemma_floor_bounds;
use crate::backend::{Backend, BackendId, Zone};
use crate::random::DRAW_RANGE;
use crate::sampler::{
    accepts, backend_weight, candidate_weight, draws_taken, lemma_sweep_agrees, pass_outcome,
    selected, sweep,
};
use crate::weights::ONE;
use crate::zone_table::{holds_zone, ZoneEntry};
use vstd::prelude::*;

verus! {

/// Whether the backend at `index` enters the pass with a weight above 0.
pub open spec fn weighs(
    backends: Seq<Backend>,
    multipliers: Seq<ZoneEntry>,
    eligible: Seq<bool>,
    index: int,
) -> bool {
    candidate_weight(backends, multipliers, eligible, index) matches Some(weight) && weight > 0
}

/// After the first `k` backends a pass keeps a backend exactly when it has
/// seen weight, the kept backend is a candidate with weight, and the pass has
/// seen weight exactly when one of the `k` backends has some.
pub proof fn lemma_sweep_keeps_weight(
    backends: Seq<Backend>,
    multipliers: Seq<ZoneEntry>,
    eligible: Seq<bool>,
    draws: Seq<u64>,
    k: int,
)
    requires
        0 <= k <= backends.len(),
        forall|i: int|
            0 <= i < sweep(backends, multipliers, eligible, draws, k).draws_used ==> #[trigger] draws[i]
                < DRAW_RANGE,
    ensures
        sweep(backends, multipliers, eligible, draws, k).chosen is Some <==> sweep(
            backends,
            multipliers,
            eligible,
            draws,
            k,
        ).total_weight > 0,
        sweep(backends, multipliers, eligible, draws, k).chosen matches Some(index) ==> 0 <= index
            < k && weighs(backends, multipliers, eligible, index),
        sweep(backends, multipliers, eligible, draws, k).total_weight > 0 <==> exists|i: int|
            0 <= i < k && #[trigger] weighs(backends, multipliers, eligible, i),
    decreases k,
{
    if k > 0 {
        let i = k - 1;
        let before = sweep(backends, multipliers, eligible, draws, i);
        let after = sweep(backends, multipliers, eligible, draws, k);
        lemma_sweep_keeps_weight(backends, multipliers, eligible, draws, i);
        match candidate_weight(backends, multipliers, eligible, i) {
            Some(weight) => {
                let draw = draws[before.draws_used as int] as nat;
                let total = before.total_weight + weight;
                if weight == 0 {
                    assert(!accepts(draw, weight, total)) by (nonlinear_arith)
                        requires
                            weight == 0,
                    ;
                } else if before.total_weight == 0 {
                    assert(draw < DRAW_RANGE);
                    assert(accepts(draw, weight, total)) by (nonlinear_arith)
                        requires
                            draw < DRAW_RANGE,
                            weight > 0,
                            total == weight,
                    ;
                }
                if weight > 0 {
                    assert(weighs(backends, multipliers, eligible, i));
                }
            },
            None => {},
        }
        if after.total_weight > 0 {
            if before.total_weight > 0 {
                let j = choose|j: int|
                    0 <= j < i && #[trigger] weighs(backends, multipliers, eligible, j);
                assert(weighs(backends, multipliers, eligible, j));
            } else {
                assert(weighs(backends, multipliers, eligible, i));
            }
        }
    }
}

/// A pass selects a backend exactly when some backend is eligible, lies in a
/// zone with a multiplier and has weight; and the backend it selects is such
/// a backend.
pub proof fn lemma_selects_a_weighing_candidate(
    backends: Seq<Backend>,
    multipliers: Seq<ZoneEntry>,
    eligible: Seq<bool>,
    draws: Seq<u64>,
)
    requires
        forall|i: int|
            0 <= i < draws_taken(backends, multipliers, eligible, draws) ==> #[trigger] draws[i]
                < DRAW_RANGE,
    ensures
        selected(backends, multipliers, eligible, draws) is Some <==> exists|i: int|
            0 <= i < backends.len() && #[trigger] weighs(backends, multipliers, eligible, i),
        selected(backends, multipliers, eligible, draws) matches Some(index) ==> 0 <= index
            < backends.len() && weighs(backends, multipliers, eligible, index),
{
    lemma_sweep_keeps_weight(backends, multipliers, eligible, draws, backends.len() as int);
}

/// A pass over backends that the predicate rejects keeps none and takes no
/// draw.
proof fn lemma_sweep_none_eligible(
    backends: Seq<Backend>,
    multipliers: Seq<ZoneEntry>,
    eligible: Seq<bool>,
    draws: Seq<u64>,
    k: int,
)
    requires
        0 <= k <= backends.len(),
        forall|i: int| 0 <= i < k ==> !eligible[i],
    ensures
        sweep(backends, multipliers, eligible, draws, k).chosen is None,
        sweep(backends, multipliers, eligible, draws, k).draws_used == 0,
    decreases k,
{
    if k > 0 {
        lemma_sweep_none_eligible(backends, multipliers, eligible, draws, k - 1);
    }
}

/// Empty eligibility: where the predicate rejects every backend, the pass
/// selects none and takes no draw, whatever the draws are.
pub proof fn lemma_none_eligible(
    backends: Seq<Backend>,
    multipliers: Seq<ZoneEntry>,
    eligible: Seq<bool>,
    draws: Seq<u64>,
)
    requires
        forall|i: int| 0 <= i < backends.len() ==> !eligible[i],
    ensures
        selected(backends, multipliers, eligible, draws) is None,
        draws_taken(backends, multipliers, eligible, draws) == 0,
{
    lemma_sweep_none_eligible(backends, multipliers, eligible, draws, backends.len() as int);
}

/// Determinism: a pass is fixed by the registry, the multipliers, the
/// verdicts of the predicate and the draws it takes. It reads no draw beyond
/// those, so two passes that get the same verdicts and take their draws from
/// the same stream select the same backend and take the same number of draws.
pub proof fn lemma_selection_deterministic(
    backends: Seq<Backend>,
    multipliers: Seq<ZoneEntry>,
    eligible: Seq<bool>,
    draws: Seq<u64>,
    other_draws: Seq<u64>,
)
    requires
        forall|i: int|
            0 <= i < draws_taken(backends, multipliers, eligible, draws) ==> draws[i]
                == other_draws[i],
    ensures
        selected(backends, multipliers, eligible, draws) == selected(
            backends,
            multipliers,
            eligible,
            other_draws,
        ),
        draws_taken(backends, multipliers, eligible, draws) == draws_taken(
            backends,
            multipliers,
            eligible,
            other_draws,
        ),
{
    lemma_sweep_agrees(
        backends,
        multipliers,
        eligible,
        draws,
        eligible,
        other_draws,
        backends.len() as int,
    );
}

/// Determinism of a call: two calls on the same registry, multipliers and
/// verdicts, whose random sources hand out the same stream of draws from
/// where each stands, pick the same backend and advance their sources by the
/// same number of draws.
pub proof fn lemma_pass_deterministic(
    backends: Seq<Backend>,
    multipliers: Seq<ZoneEntry>,
    verdicts: Seq<bool>,
    history_before: Seq<u64>,
    history_after: Seq<u64>,
    picked: Option<BackendId>,
    other_before: Seq<u64>,
    other_after: Seq<u64>,
    other_picked: Option<BackendId>,
)
    requires
        pass_outcome(backends, multipliers, verdicts, history_before, history_after, picked),
        pass_outcome(backends, multipliers, verdicts, other_before, other_after, other_picked),
        forall|i: int|
            0 <= i < history_after.len() - history_before.len() && i < other_after.len()
                - other_before.len() ==> #[trigger] history_after.skip(
                history_before.len() as int,
            )[i] == other_after.skip(other_before.len() as int)[i],
    ensures
        picked == other_picked,
        history_after.len() - history_before.len() == other_after.len() - other_before.len(),
{
    let draws = history_after.skip(history_before.len() as int);
    let other_draws = other_after.skip(other_before.len() as int);
    if draws.len() <= other_draws.len() {
        lemma_selection_deterministic(backends, multipliers, verdicts, draws, other_draws);
    } else {
        lemma_selection_deterministic(backends, multipliers, verdicts, other_draws, draws);
    }
}

/// Home-zone dominance in the sampler: with the home zone as the only row of
/// the multipliers, every backend that a pass selects lies in the home zone.
pub proof fn lemma_local_selection_stays_home(
    backends: Seq<Backend>,
    home: Zone,
    eligible: Seq<bool>,
    draws: Seq<u64>,
)
    requires
        forall|i: int|
            0 <= i < draws_taken(
                backends,
                seq![ZoneEntry { zone: home, value: ONE }],
                eligible,
                draws,
            ) ==> #[trigger] draws[i] < DRAW_RANGE,
    ensures
        selected(backends, seq![ZoneEntry { zone: home, value: ONE }], eligible, draws) matches Some(
            index,
        ) ==> 0 <= index < backends.len() && backends[index].zone == home,
{
    let only = seq![ZoneEntry { zone: home, value: ONE }];
    lemma_selects_a_weighing_candidate(backends, only, eligible, draws);
    if let Some(index) = selected(backends, only, eligible, draws) {
        let zone = backends[index].zone;
        assert(backend_weight(only, backends[index]) is Some);
        assert(holds_zone(only, zone));
        let j = choose|j: int| 0 <= j < only.len() && (#[trigger] only[j]).zone == zone;
        assert(only[j] == only[0]);
    }
}

/// Of the `DRAW_RANGE` values a draw can take, the number for which a
/// candidate of the given weight is taken, where `total` is the sum of the
/// weights up to and with it: `weight / total` of them, rounded up.
pub open spec fn accepting_draws(weight: nat, total: nat) -> nat {
    if total == 0 {
        0
    } else {
        ((weight * DRAW_RANGE + total - 1) as nat) / total
    }
}

/// The acceptance test takes a candidate for the draws below
/// `accepting_draws` and for no other. So, with every draw as likely as any
/// other, a candidate is taken with a chance of its weight over the sum so
/// far, to within one part in `DRAW_RANGE`.
pub proof fn lemma_acceptance_share(weight: nat, total: nat)
    requires
        weight <= total,
    ensures
        forall|draw: nat| #[trigger]
            accepts(draw, weight, total) <==> draw < accepting_draws(weight, total),
        accepting_draws(weight, total) <= DRAW_RANGE,
        total > 0 ==> weight * DRAW_RANGE <= accepting_draws(weight, total) * total < weight
            * DRAW_RANGE + total,
{
    let range = DRAW_RANGE as nat;
    let taken = accepting_draws(weight, total);
    if total == 0 {
        assert forall|draw: nat| !#[trigger] accepts(draw, weight, total) by {
            assert(draw * 0 == 0 && 0 * range == 0) by (nonlinear_arith);
        }
    } else {
        lemma_floor_bounds((weight * range + total - 1) as nat, total);
        assert(taken * total <= weight * range + total - 1);
        assert(weight * range + total - 1 < taken * total + total);
        assert(taken <= range) by (nonlinear_arith)
            requires
                taken * total < weight * range + total,
                weight <= total,
                total > 0,
        ;
        assert forall|draw: nat| #[trigger]
            accepts(draw, weight, total) <==> draw < taken by {
            if draw < taken {
                assert(draw * total + total <= taken * total) by (nonlinear_arith)
                    requires
                        draw + 1 <= taken,
                ;
            } else {
                assert(taken * total <= draw * total) by (nonlinear_arith)
                    requires
                        taken <= draw,
                ;
            }
        }
    }
}

/// Sum of the first `k` weights.
pub open spec fn weight_sum(weights: Seq<nat>, k: int) -> nat
    decreases k,
{
    if k <= 0 {
        0
    } else {
        weight_sum(weights, k - 1) + weights[k - 1]
    }
}

/// The chance, as numerator and denominator, that candidate `index` is the
/// kept one after the first `k` candidates, `k` above `index`, where each
/// candidate is taken with a chance of exactly its weight over the sum of the
/// weights up to and with it.
pub open spec fn exact_chance(weights: Seq<nat>, index: int, k: int) -> (nat, nat)
    decreases k - index,
{
    if k <= index + 1 {
        (weights[index], weight_sum(weights, index + 1))
    } else {
        let (numerator, denominator) = exact_chance(weights, index, k - 1);
        (numerator * weight_sum(weights, k - 1), denominator * weight_sum(weights, k))
    }
}

/// One-pass selection is fair: where each candidate is taken with a chance
/// of exactly its weight over the sum so far, the chance that a candidate is
/// the kept one after `k` candidates is its weight over the sum of all `k`
/// weights, whatever the order of the candidates.
pub proof fn lemma_exact_chance(weights: Seq<nat>, index: int, k: int)
    requires
        0 <= index < k <= weights.len(),
        forall|i: int| 0 <= i < weights.len() ==> weights[i] > 0,
    ensures
        exact_chance(weights, index, k).1 > 0,
        exact_chance(weights, index, k).0 * weight_sum(weights, k) == exact_chance(
            weights,
            index,
            k,
        ).1 * weights[index],
    decreases k,
{
    lemma_weight_sum_positive(weights, k);
    if k == index + 1 {
        assert(weights[index] * weight_sum(weights, k) == weight_sum(weights, k)
            * weights[index]) by (nonlinear_arith);
    } else {
        lemma_exact_chance(weights, index, k - 1);
        lemma_weight_sum_positive(weights, k - 1);
        let (numerator, denominator) = exact_chance(weights, index, k - 1);
        let before = weight_sum(weights, k - 1);
        let after = weight_sum(weights, k);
        let weight = weights[index];
        assert((numerator * before) * after == (denominator * after) * weight) by (nonlinear_arith)
            requires
                numerator * before == denominator * weight,
        ;
        assert(denominator * after > 0) by (nonlinear_arith)
            requires
                denominator > 0,
                after > 0,
        ;
    }
}

/// The sum of one or more positive weights is positive.
pub proof fn lemma_weight_sum_positive(weights: Seq<nat>, k: int)
    requires
        0 < k <= weights.len(),
        forall|i: int| 0 <= i < weights.len() ==> weights[i] > 0,
    ensures
        weight_sum(weights, k) > 0,
{
    assert(weights[k - 1] > 0);
}

} // verus!
