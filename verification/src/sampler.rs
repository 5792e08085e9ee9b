//! One pass of weighted selection over the backends of a registry.
//!
//! The pass keeps the sum of the weights seen and one backend. Each backend
//! that is a candidate adds its weight to the sum and then takes the place of
//! the kept backend if a draw, read as a real in `[0, 1)`, is below its weight
//! over the sum.

use crate::arith::{lemma_floor_bounds, lemma_product_bound, lemma_share_bounds};
use crate::backend::{
    lemma_total_capacity_prefix, total_capacity, Backend, BackendId, MAX_TOTAL_CAPACITY,
};
use crate::random::{RandomSource, DRAW_RANGE};
use crate::weights::{multiplier_table, MultiplierMap, ONE};
use crate::zone_table::{value_of, ZoneEntry};
use vstd::arithmetic::div_mod::lemma_fundamental_div_mod;
use vstd::prelude::*;

verus! {

/// The weight of a backend for a client: the multiplier of its zone times its
/// capacity. A backend in a zone without a multiplier has none.
pub open spec fn backend_weight(multipliers: Seq<ZoneEntry>, backend: Backend) -> Option<nat> {
    match value_of(multipliers, backend.zone) {
        Some(multiplier) => Some((multiplier as nat) * (backend.capacity as nat)),
        None => None,
    }
}

/// The weight with which the backend at `index` enters the pass: none where
/// the predicate rejected it or its zone has no multiplier.
pub open spec fn candidate_weight(
    backends: Seq<Backend>,
    multipliers: Seq<ZoneEntry>,
    eligible: Seq<bool>,
    index: int,
) -> Option<nat> {
    if eligible[index] {
        backend_weight(multipliers, backends[index])
    } else {
        None
    }
}

/// Whether a candidate takes the place of the kept backend: the draw, as the
/// real `draw / DRAW_RANGE`, is below `weight / total`.
pub open spec fn accepts(draw: nat, weight: nat, total: nat) -> bool {
    draw * total < weight * DRAW_RANGE
}

/// State of a pass, as the proofs see it.
pub struct Pass {
    /// Sum of the weights of the candidates so far.
    pub total_weight: nat,
    /// Index of the backend kept so far.
    pub chosen: Option<int>,
    /// Number of draws taken so far: one for each candidate.
    pub draws_used: nat,
}

/// The pass after a candidate has entered it: its weight is added to the sum
/// first, then the draw decides.
pub open spec fn offered(pass: Pass, index: int, weight: nat, draw: nat) -> Pass {
    let total = pass.total_weight + weight;
    Pass {
        total_weight: total,
        chosen: if accepts(draw, weight, total) {
            Some(index)
        } else {
            pass.chosen
        },
        draws_used: pass.draws_used + 1,
    }
}

/// The pass after the first `k` backends, in the order of the registry. The
/// candidates take the draws one after another.
pub open spec fn sweep(
    backends: Seq<Backend>,
    multipliers: Seq<ZoneEntry>,
    eligible: Seq<bool>,
    draws: Seq<u64>,
    k: int,
) -> Pass
    decreases k,
{
    if k <= 0 {
        Pass { total_weight: 0, chosen: None, draws_used: 0 }
    } else {
        let before = sweep(backends, multipliers, eligible, draws, k - 1);
        match candidate_weight(backends, multipliers, eligible, k - 1) {
            Some(weight) => offered(before, k - 1, weight, draws[before.draws_used as int] as nat),
            None => before,
        }
    }
}

/// Index of the backend that a pass over the whole registry ends with.
pub open spec fn selected(
    backends: Seq<Backend>,
    multipliers: Seq<ZoneEntry>,
    eligible: Seq<bool>,
    draws: Seq<u64>,
) -> Option<int> {
    sweep(backends, multipliers, eligible, draws, backends.len() as int).chosen
}

/// Number of draws that a pass over the whole registry takes.
pub open spec fn draws_taken(
    backends: Seq<Backend>,
    multipliers: Seq<ZoneEntry>,
    eligible: Seq<bool>,
    draws: Seq<u64>,
) -> nat {
    sweep(backends, multipliers, eligible, draws, backends.len() as int).draws_used
}

/// The identifier of the backend at a chosen index.
pub open spec fn id_at(backends: Seq<Backend>, chosen: Option<int>) -> Option<BackendId> {
    match chosen {
        Some(index) => Some(backends[index].id),
        None => None,
    }
}

/// Decides whether a candidate takes the place of the kept backend.
///
/// The draw picks the point `draw * total / DRAW_RANGE`, rounded down, on the
/// scale of the weights seen. The candidate is taken where the point lies
/// within its own weight, which is the case exactly when `draw / DRAW_RANGE`
/// is below `weight / total`.
pub fn accept(draw: u64, weight: u128, total: u128) -> (taken: bool)
    requires
        draw < DRAW_RANGE,
    ensures
        taken == accepts(draw as nat, weight as nat, total as nat),
{
    let range: u128 = DRAW_RANGE as u128;
    let high: u128 = total / range;
    let low: u128 = total % range;
    proof {
        lemma_fundamental_div_mod(total as int, range as int);
        lemma_product_bound(draw as nat, high as nat, range as nat, high as nat);
        lemma_product_bound(draw as nat, low as nat, range as nat, range as nat);
        lemma_floor_bounds((draw * low) as nat, range as nat);
        assert(low * draw == draw * low) by (nonlinear_arith);
        lemma_share_bounds(low as nat, draw as nat, range as nat);
    }
    let point: u128 = draw as u128 * high + (draw as u128 * low) / range;
    proof {
        let d = draw as int;
        let r = range as int;
        let t = total as int;
        let w = weight as int;
        let p = point as int;
        let whole = d * high;
        let part = (d * low) / r;
        assert(d * t == whole * r + d * low) by (nonlinear_arith)
            requires
                t == r * high + low,
                whole == d * high,
        ;
        assert(p * r == whole * r + part * r) by (nonlinear_arith)
            requires
                p == whole + part,
        ;
        if p < w {
            assert(p * r + r <= w * r) by (nonlinear_arith)
                requires
                    p + 1 <= w,
                    r > 0,
            ;
        } else {
            assert(w * r <= p * r) by (nonlinear_arith)
                requires
                    w <= p,
                    r > 0,
            ;
        }
    }
    point < weight
}

/// State of a pass, as it runs: the sum of the weights seen and the backend
/// kept.
pub struct Reservoir {
    pub total_weight: u128,
    pub current: Option<BackendId>,
}

impl Reservoir {
    /// The state before any backend: no weight, no backend.
    pub fn new() -> (reservoir: Self)
        ensures
            reservoir.total_weight == 0,
            reservoir.current is None,
    {
        Reservoir { total_weight: 0, current: None }
    }

    /// Lets a candidate enter the pass with its weight and its draw.
    pub fn offer(&mut self, candidate: BackendId, weight: u128, draw: u64)
        requires
            draw < DRAW_RANGE,
            old(self).total_weight + weight <= u128::MAX,
        ensures
            final(self).total_weight == old(self).total_weight + weight,
            final(self).current == if accepts(
                draw as nat,
                weight as nat,
                (old(self).total_weight + weight) as nat,
            ) {
                Some(candidate)
            } else {
                old(self).current
            },
    {
        self.total_weight = self.total_weight + weight;
        if accept(draw, weight, self.total_weight) {
            self.current = Some(candidate);
        }
    }
}

/// What holds of a pass after the first `k` backends: it has taken at most
/// one draw for each, the kept backend is one of them, and the sum of the
/// weights is at most `ONE` for each unit of their capacity.
pub proof fn lemma_sweep_bounds(
    backends: Seq<Backend>,
    multipliers: Seq<ZoneEntry>,
    eligible: Seq<bool>,
    draws: Seq<u64>,
    k: int,
)
    requires
        multiplier_table(multipliers),
        0 <= k <= backends.len(),
    ensures
        sweep(backends, multipliers, eligible, draws, k).draws_used <= k,
        sweep(backends, multipliers, eligible, draws, k).chosen matches Some(index) ==> 0 <= index
            < k,
        sweep(backends, multipliers, eligible, draws, k).total_weight <= ONE * total_capacity(
            backends.take(k),
        ),
    decreases k,
{
    if k == 0 {
        assert(backends.take(0) =~= Seq::<Backend>::empty());
    } else {
        let i = k - 1;
        lemma_sweep_bounds(backends, multipliers, eligible, draws, i);
        assert(backends.take(k).drop_last() =~= backends.take(i));
        let capacity = backends[i].capacity as nat;
        let before = total_capacity(backends.take(i));
        assert(ONE * (before + capacity) == ONE * before + ONE * capacity) by (nonlinear_arith);
        if candidate_weight(backends, multipliers, eligible, i) is Some {
            let zone = backends[i].zone;
            let j = choose|j: int| 0 <= j < multipliers.len() && (#[trigger] multipliers[j]).zone == zone;
            lemma_product_bound(multipliers[j].value as nat, capacity, ONE as nat, capacity);
        }
    }
}

/// A pass over the first `k` backends reads the first `k` verdicts of the
/// predicate and as many draws as it has candidates, and nothing else.
pub proof fn lemma_sweep_agrees(
    backends: Seq<Backend>,
    multipliers: Seq<ZoneEntry>,
    eligible: Seq<bool>,
    draws: Seq<u64>,
    other_eligible: Seq<bool>,
    other_draws: Seq<u64>,
    k: int,
)
    requires
        0 <= k,
        forall|i: int| 0 <= i < k ==> eligible[i] == other_eligible[i],
        forall|i: int|
            0 <= i < sweep(backends, multipliers, eligible, draws, k).draws_used ==> draws[i]
                == other_draws[i],
    ensures
        sweep(backends, multipliers, eligible, draws, k) == sweep(
            backends,
            multipliers,
            other_eligible,
            other_draws,
            k,
        ),
    decreases k,
{
    if k > 0 {
        lemma_sweep_agrees(backends, multipliers, eligible, draws, other_eligible, other_draws, k - 1);
    }
}

/// `verdicts` holds what the predicate answered for each backend, in order.
pub open spec fn verdicts_of<F: Fn(&Backend) -> bool>(
    eligible: F,
    backends: Seq<Backend>,
    verdicts: Seq<bool>,
) -> bool {
    &&& verdicts.len() == backends.len()
    &&& forall|i: int|
        0 <= i < backends.len() ==> call_ensures(eligible, (&backends[i],), #[trigger] verdicts[i])
}

/// What one pass with the given verdicts does to a random source and hands
/// back: the source has handed out one draw for each candidate, and the
/// backend picked is the one that `selected` gives for those draws.
pub open spec fn pass_outcome(
    backends: Seq<Backend>,
    multipliers: Seq<ZoneEntry>,
    verdicts: Seq<bool>,
    history_before: Seq<u64>,
    history_after: Seq<u64>,
    picked: Option<BackendId>,
) -> bool {
    let draws = history_after.skip(history_before.len() as int);
    &&& history_before.len() <= history_after.len()
    &&& history_after == history_before + draws
    &&& draws.len() == draws_taken(backends, multipliers, verdicts, draws)
    &&& forall|i: int| 0 <= i < draws.len() ==> #[trigger] draws[i] < DRAW_RANGE
    &&& picked == id_at(backends, selected(backends, multipliers, verdicts, draws))
}

/// Selects one backend in a single pass over the registry.
///
/// A backend is a candidate where `eligible` accepts it and its zone has a
/// multiplier. The result is `None` where no candidate has weight, and else
/// the identifier of a candidate, fixed by the draws as `selected` says.
pub fn select_backend<F: Fn(&Backend) -> bool>(
    backends: &Vec<Backend>,
    multipliers: &MultiplierMap,
    eligible: F,
    rng: &mut RandomSource,
) -> (picked: Option<BackendId>)
    requires
        total_capacity(backends@) <= MAX_TOTAL_CAPACITY,
        multiplier_table(multipliers@),
        forall|i: int| 0 <= i < backends@.len() ==> call_requires(eligible, (&backends@[i],)),
    ensures
        exists|verdicts: Seq<bool>|
            verdicts_of(eligible, backends@, verdicts) && #[trigger] pass_outcome(
                backends@,
                multipliers@,
                verdicts,
                old(rng).history(),
                final(rng).history(),
                picked,
            ),
{
    let ghost start = rng.history();
    let ghost mut verdicts: Seq<bool> = Seq::empty();
    let mut reservoir = Reservoir::new();
    let mut i: usize = 0;
    while i < backends.len()
        invariant
            i <= backends.len(),
            total_capacity(backends@) <= MAX_TOTAL_CAPACITY,
            multiplier_table(multipliers@),
            forall|j: int| 0 <= j < backends@.len() ==> call_requires(eligible, (&backends@[j],)),
            verdicts.len() == i,
            forall|j: int| 0 <= j < i ==> call_ensures(eligible, (&backends@[j],), #[trigger] verdicts[j]),
            start.len() <= rng.history().len(),
            rng.history() == start + rng.history().skip(start.len() as int),
            forall|j: int|
                start.len() <= j < rng.history().len() ==> #[trigger] rng.history()[j] < DRAW_RANGE,
            sweep(
                backends@,
                multipliers@,
                verdicts,
                rng.history().skip(start.len() as int),
                i as int,
            ).draws_used == rng.history().len() - start.len(),
            reservoir.total_weight == sweep(
                backends@,
                multipliers@,
                verdicts,
                rng.history().skip(start.len() as int),
                i as int,
            ).total_weight,
            reservoir.current == id_at(
                backends@,
                sweep(
                    backends@,
                    multipliers@,
                    verdicts,
                    rng.history().skip(start.len() as int),
                    i as int,
                ).chosen,
            ),
        decreases backends.len() - i,
    {
        let backend: &Backend = &backends[i];
        let ghost draws = rng.history().skip(start.len() as int);
        let ghost seen = verdicts;
        let verdict: bool = eligible(backend);
        proof {
            verdicts = seen.push(verdict);
            lemma_sweep_agrees(backends@, multipliers@, seen, draws, verdicts, draws, i as int);
        }
        if verdict {
            match multipliers.get(backend.zone) {
                Some(multiplier) => {
                    let draw: u64 = rng.next_draw();
                    proof {
                        let longer = rng.history().skip(start.len() as int);
                        assert(longer =~= draws.push(draw));
                        assert(rng.history() =~= start + longer);
                        lemma_sweep_agrees(
                            backends@,
                            multipliers@,
                            verdicts,
                            draws,
                            verdicts,
                            longer,
                            i as int,
                        );
                        lemma_sweep_bounds(backends@, multipliers@, verdicts, longer, i + 1);
                        lemma_total_capacity_prefix(backends@, i + 1);
                        lemma_product_bound(
                            ONE as nat,
                            total_capacity(backends@.take(i + 1)),
                            ONE as nat,
                            MAX_TOTAL_CAPACITY as nat,
                        );
                        lemma_product_bound(
                            multiplier as nat,
                            backend.capacity as nat,
                            u64::MAX as nat,
                            u32::MAX as nat,
                        );
                    }
                    let weight: u128 = multiplier as u128 * backend.capacity as u128;
                    reservoir.offer(backend.id, weight, draw);
                },
                None => {},
            }
        }
        i = i + 1;
    }
    proof {
        assert(verdicts_of(eligible, backends@, verdicts));
        assert(pass_outcome(
            backends@,
            multipliers@,
            verdicts,
            start,
            rng.history(),
            reservoir.current,
        ));
    }
    reservoir.current
}

} // verus!
