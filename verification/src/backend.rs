//! Backends, zones and the registry snapshot that a client is built from.

use vstd::prelude::*;

verus! {

/// Identifier of one backend. Opaque to the balancer: it is only handed back.
#[derive(Clone, Copy, Debug, PartialEq, Eq, Structural, PartialOrd, Ord, Hash)]
pub struct BackendId(pub u32);

/// Identifier of an availability zone. Zones are ordered by their number.
#[derive(Clone, Copy, Debug, PartialEq, Eq, Structural, PartialOrd, Ord, Hash)]
pub struct Zone(pub u64);

/// A tag that an eligibility predicate may filter backends by.
#[derive(Clone, Copy, Debug, PartialEq, Eq, Structural, Hash)]
pub struct Subset(pub u8);

/// One backend of a registry snapshot.
///
/// `capacity` is a relative measure of how much load the backend can take,
/// counted in whole units. A backend of a valid registry has at least one.
#[derive(Clone, Copy, Debug, PartialEq, Eq, Structural, Hash)]
pub struct Backend {
    pub id: BackendId,
    pub zone: Zone,
    pub subset: Subset,
    pub capacity: u32,
}

/// Why a client could not be built.
#[derive(Clone, Copy, Debug, PartialEq, Eq, Structural, Hash)]
pub enum Error {
    /// The registry snapshot holds no backend.
    EmptyRegistry,
    /// The home zone was required to have backends and has none.
    UnknownHomeZone,
}

/// The largest total capacity of a registry that the balancer computes with.
/// It keeps every intermediate product of the weight formulas within 128 bits.
pub const MAX_TOTAL_CAPACITY: u64 = 0xFFFF_FFFF;

/// Sum of the capacities of all backends.
pub open spec fn total_capacity(backends: Seq<Backend>) -> nat
    decreases backends.len(),
{
    if backends.len() == 0 {
        0
    } else {
        total_capacity(backends.drop_last()) + backends.last().capacity as nat
    }
}

/// Sum of the capacities of the backends that lie in `zone`.
pub open spec fn zone_capacity(backends: Seq<Backend>, zone: Zone) -> nat
    decreases backends.len(),
{
    if backends.len() == 0 {
        0
    } else if backends.last().zone == zone {
        zone_capacity(backends.drop_last(), zone) + backends.last().capacity as nat
    } else {
        zone_capacity(backends.drop_last(), zone)
    }
}

/// Whether some backend lies in `zone`.
pub open spec fn has_zone(backends: Seq<Backend>, zone: Zone) -> bool {
    exists|i: int| 0 <= i < backends.len() && (#[trigger] backends[i]).zone == zone
}

/// Every backend has capacity.
pub open spec fn capacities_positive(backends: Seq<Backend>) -> bool {
    forall|i: int| 0 <= i < backends.len() ==> (#[trigger] backends[i]).capacity > 0
}

/// What the balancer asks of a registry snapshot: every backend has capacity,
/// and the capacities add up to no more than `MAX_TOTAL_CAPACITY`.
/// An empty snapshot is valid; building a client from it fails.
pub open spec fn valid_registry(backends: Seq<Backend>) -> bool {
    &&& capacities_positive(backends)
    &&& total_capacity(backends) <= MAX_TOTAL_CAPACITY
}

/// The total capacity of a prefix is at most that of the whole.
pub proof fn lemma_total_capacity_prefix(backends: Seq<Backend>, n: int)
    requires
        0 <= n <= backends.len(),
    ensures
        total_capacity(backends.take(n)) <= total_capacity(backends),
    decreases backends.len(),
{
    if n == backends.len() {
        assert(backends.take(n) =~= backends);
    } else {
        lemma_total_capacity_prefix(backends.drop_last(), n);
        assert(backends.drop_last().take(n) =~= backends.take(n));
    }
}

/// A zone's capacity is part of the total.
pub proof fn lemma_zone_capacity_le_total(backends: Seq<Backend>, zone: Zone)
    ensures
        zone_capacity(backends, zone) <= total_capacity(backends),
    decreases backends.len(),
{
    if backends.len() > 0 {
        lemma_zone_capacity_le_total(backends.drop_last(), zone);
    }
}

/// In a registry whose backends all have capacity, a zone has capacity
/// exactly when a backend lies in it.
pub proof fn lemma_zone_capacity_positive(backends: Seq<Backend>, zone: Zone)
    requires
        capacities_positive(backends),
    ensures
        has_zone(backends, zone) <==> zone_capacity(backends, zone) > 0,
    decreases backends.len(),
{
    if backends.len() > 0 {
        let front = backends.drop_last();
        let last = backends.len() - 1;
        assert forall|i: int| 0 <= i < front.len() implies (#[trigger] front[i]).capacity > 0 by {
            assert(front[i] == backends[i]);
        }
        lemma_zone_capacity_positive(front, zone);
        if has_zone(backends, zone) {
            let i = choose|i: int| 0 <= i < backends.len() && (#[trigger] backends[i]).zone == zone;
            if i < last {
                assert(front[i].zone == zone);
            }
        }
        if has_zone(front, zone) {
            let i = choose|i: int| 0 <= i < front.len() && (#[trigger] front[i]).zone == zone;
            assert(backends[i].zone == zone);
        }
        if backends.last().zone == zone {
            assert(backends[last].zone == zone);
        }
    }
}

/// Checks a snapshot before it is handed to the balancer.
pub fn is_valid_registry(backends: &Vec<Backend>) -> (ok: bool)
    ensures
        ok == valid_registry(backends@),
{
    let mut total: u64 = 0;
    let mut i: usize = 0;
    while i < backends.len()
        invariant
            i <= backends.len(),
            total == total_capacity(backends@.take(i as int)),
            total <= MAX_TOTAL_CAPACITY,
            capacities_positive(backends@.take(i as int)),
        decreases backends.len() - i,
    {
        let capacity: u32 = backends[i].capacity;
        proof {
            assert(backends@.take(i + 1).drop_last() =~= backends@.take(i as int));
            lemma_total_capacity_prefix(backends@, i + 1);
        }
        if capacity == 0 {
            return false;
        }
        if total + capacity as u64 > MAX_TOTAL_CAPACITY {
            return false;
        }
        total = total + capacity as u64;
        i = i + 1;
        proof {
            assert forall|j: int| 0 <= j < i implies (#[trigger] backends@.take(i as int)[j]).capacity
                > 0 by {
                if j < i - 1 {
                    assert(backends@.take(i - 1)[j] == backends@.take(i as int)[j]);
                }
            }
        }
    }
    proof {
        assert(backends@.take(i as int) =~= backends@);
    }
    true
}

} // verus!
