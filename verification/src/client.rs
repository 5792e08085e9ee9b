//! A client in one zone: the multipliers it derived from a registry
//! snapshot, the snapshot, and its own random source.

use crate::backend::{
    total_capacity, valid_registry, zone_capacity, Backend, BackendId, Error, Zone,
};
use crate::capacity::{aggregate, lemma_tally, lemma_tally_is_capacity_table, tally};
use crate::normalization::{lemma_normalization, normalization};
use crate::random::{RandomSource, DRAW_RANGE};
use crate::sampler::{draws_taken, pass_outcome, select_backend, selected, verdicts_of};
use crate::selection_laws::lemma_local_selection_stays_home;
use crate::weights::{
    lemma_home_zone_dominance, lemma_multipliers_table, multipliers, stays_local,
    zone_multipliers, MultiplierMap, ONE,
};
use crate::zone_table::{value_of, value_or_zero, ZoneEntry};
use vstd::prelude::*;

verus! {

/// A client of the balancer. The multipliers are computed once, when the
/// client is built, and stay as they are; each selection advances the random
/// source.
pub struct Client {
    zone: Zone,
    zonal_multiplier: MultiplierMap,
    backends: Vec<Backend>,
    prng: RandomSource,
}

impl Client {
    /// The zone the client lies in.
    pub closed spec fn home_zone(&self) -> Zone {
        self.zone
    }

    /// The registry snapshot the client was built from.
    pub closed spec fn registry(&self) -> Seq<Backend> {
        self.backends@
    }

    /// The multiplier of each zone the client sends traffic to.
    pub closed spec fn multipliers(&self) -> Seq<ZoneEntry> {
        self.zonal_multiplier@
    }

    /// The draws that the client's random source has handed out.
    pub closed spec fn draws(&self) -> Seq<u64> {
        self.prng.history()
    }

    /// The snapshot is valid and holds a backend, and the multipliers are
    /// those of the client's zone over the snapshot.
    pub open spec fn wf(&self) -> bool {
        &&& valid_registry(self.registry())
        &&& self.registry().len() > 0
        &&& self.multipliers() == multipliers(tally(self.registry()), self.home_zone())
    }

    /// Normalization: the multipliers of a client, each taken times the
    /// capacity of its zone, add up to `ONE`, less what rounding down took:
    /// less than one unit of the last fixed-point place for each unit of
    /// capacity in the registry.
    ///
    /// This holds of every client that sends traffic to other zones. Of a
    /// client that keeps its traffic in its own zone it holds where that
    /// zone has capacity 1.
    pub proof fn lemma_normalized(&self)
        requires
            self.wf(),
            !stays_local(tally(self.registry()), self.home_zone()) || zone_capacity(
                self.registry(),
                self.home_zone(),
            ) == 1,
        ensures
            ONE - total_capacity(self.registry()) < normalization(
                tally(self.registry()),
                self.multipliers(),
            ) <= ONE,
    {
        let caps = tally(self.registry());
        lemma_tally(self.registry());
        lemma_tally_is_capacity_table(self.registry());
        assert(value_or_zero(caps, self.home_zone()) == zone_capacity(
            self.registry(),
            self.home_zone(),
        ));
        lemma_normalization(caps, self.home_zone());
    }

    /// Home-zone dominance: a client whose zone has at least the average
    /// capacity of a zone has one multiplier, `ONE` for its own zone, and
    /// every backend it selects lies in that zone.
    pub proof fn lemma_dominant_home(&self, eligible: Seq<bool>, draws: Seq<u64>)
        requires
            self.wf(),
            zone_capacity(self.registry(), self.home_zone()) * tally(self.registry()).len()
                >= total_capacity(self.registry()),
            forall|i: int|
                0 <= i < draws_taken(self.registry(), self.multipliers(), eligible, draws)
                    ==> #[trigger] draws[i] < DRAW_RANGE,
        ensures
            self.multipliers() == seq![ZoneEntry { zone: self.home_zone(), value: ONE }],
            selected(self.registry(), self.multipliers(), eligible, draws) matches Some(index)
                ==> 0 <= index < self.registry().len() && self.registry()[index].zone
                == self.home_zone(),
    {
        let caps = tally(self.registry());
        lemma_tally(self.registry());
        assert(value_or_zero(caps, self.home_zone()) == zone_capacity(
            self.registry(),
            self.home_zone(),
        ));
        lemma_home_zone_dominance(caps, self.home_zone());
        lemma_local_selection_stays_home(self.registry(), self.home_zone(), eligible, draws);
    }

    /// Builds the client of `zone` from a registry snapshot and a random
    /// source. A zone without backends is accepted.
    ///
    /// Fails with `EmptyRegistry` exactly when the snapshot holds no backend.
    pub fn new(zone: Zone, backends: Vec<Backend>, prng: RandomSource) -> (result: Result<
        Client,
        Error,
    >)
        requires
            valid_registry(backends@),
        ensures
            result is Err <==> backends@.len() == 0,
            result matches Err(error) ==> error == Error::EmptyRegistry,
            result matches Ok(client) ==> {
                &&& client.wf()
                &&& client.home_zone() == zone
                &&& client.registry() == backends@
                &&& client.draws() == prng.history()
            },
    {
        match aggregate(&backends) {
            Ok(capacities) => {
                let zonal_multiplier = zone_multipliers(&capacities, zone);
                Ok(Client { zone, zonal_multiplier, backends, prng })
            },
            Err(error) => Err(error),
        }
    }

    /// The zone the client lies in.
    pub fn zone(&self) -> (zone: Zone)
        ensures
            zone == self.home_zone(),
    {
        self.zone
    }

    /// The registry snapshot the client was built from.
    pub fn backends(&self) -> (backends: &Vec<Backend>)
        ensures
            backends@ == self.registry(),
    {
        &self.backends
    }

    /// The multiplier of `zone`, if the client sends traffic there.
    pub fn multiplier(&self, zone: Zone) -> (multiplier: Option<u64>)
        requires
            self.wf(),
        ensures
            multiplier == value_of(self.multipliers(), zone),
    {
        proof {
            lemma_tally_is_capacity_table(self.backends@);
            lemma_multipliers_table(tally(self.backends@), self.zone);
        }
        self.zonal_multiplier.get(zone)
    }

    /// Selects a backend among those that `eligible` accepts, by one pass of
    /// the sampler over the snapshot with the client's multipliers and its
    /// own random source.
    ///
    /// `None` says that no accepted backend has weight for this client.
    pub fn sample<F: Fn(&Backend) -> bool>(&mut self, eligible: F) -> (picked: Option<BackendId>)
        requires
            old(self).wf(),
            forall|i: int|
                0 <= i < old(self).registry().len() ==> call_requires(
                    eligible,
                    (&old(self).registry()[i],),
                ),
        ensures
            final(self).wf(),
            final(self).home_zone() == old(self).home_zone(),
            final(self).registry() == old(self).registry(),
            final(self).multipliers() == old(self).multipliers(),
            exists|verdicts: Seq<bool>|
                verdicts_of(eligible, old(self).registry(), verdicts) && #[trigger] pass_outcome(
                    old(self).registry(),
                    old(self).multipliers(),
                    verdicts,
                    old(self).draws(),
                    final(self).draws(),
                    picked,
                ),
    {
        proof {
            lemma_tally_is_capacity_table(self.backends@);
            lemma_multipliers_table(tally(self.backends@), self.zone);
        }
        let ghost before = self.prng.history();
        let picked = select_backend(
            &self.backends,
            &self.zonal_multiplier,
            eligible,
            &mut self.prng,
        );
        proof {
            let verdicts = choose|verdicts: Seq<bool>|
                verdicts_of(eligible, self.backends@, verdicts) && #[trigger] pass_outcome(
                    self.backends@,
                    self.zonal_multiplier@,
                    verdicts,
                    before,
                    self.prng.history(),
                    picked,
                );
            assert(pass_outcome(
                old(self).registry(),
                old(self).multipliers(),
                verdicts,
                old(self).draws(),
                self.draws(),
                picked,
            ));
        }
        picked
    }

    /// Selects a backend among all backends of the snapshot.
    pub fn sample_any(&mut self) -> (picked: Option<BackendId>)
        requires
            old(self).wf(),
        ensures
            final(self).wf(),
            final(self).home_zone() == old(self).home_zone(),
            final(self).registry() == old(self).registry(),
            final(self).multipliers() == old(self).multipliers(),
            pass_outcome(
                old(self).registry(),
                old(self).multipliers(),
                Seq::new(old(self).registry().len(), |i: int| true),
                old(self).draws(),
                final(self).draws(),
                picked,
            ),
    {
        let every = |backend: &Backend| -> (ok: bool)
            ensures
                ok,
            { true };
        let picked = self.sample(every);
        proof {
            let verdicts = choose|verdicts: Seq<bool>|
                verdicts_of(every, old(self).registry(), verdicts) && #[trigger] pass_outcome(
                    old(self).registry(),
                    old(self).multipliers(),
                    verdicts,
                    old(self).draws(),
                    self.draws(),
                    picked,
                );
            assert(verdicts =~= Seq::new(old(self).registry().len(), |i: int| true));
        }
        picked
    }
}

} // verus!
