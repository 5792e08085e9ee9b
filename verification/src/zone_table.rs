//! A table from zones to numbers, held in ascending order of zone.
//!
//! Both the per-zone capacities of a registry and the per-zone multipliers of
//! a client are such tables. The order gives every table one representation
//! and lets a zone be found by bisection.

use crate::backend::Zone;
use vstd::prelude::*;

verus! {

/// One row of a table: a zone and the number recorded for it.
#[derive(Clone, Copy, Debug, PartialEq, Eq, Structural, Hash)]
pub struct ZoneEntry {
    pub zone: Zone,
    pub value: u64,
}

/// The zones of the rows increase strictly, so no zone occurs twice.
pub open spec fn ascending(entries: Seq<ZoneEntry>) -> bool {
    forall|i: int, j: int|
        0 <= i < j < entries.len() ==> (#[trigger] entries[i]).zone.0 < (#[trigger] entries[j]).zone.0
}

/// Whether a row for `zone` exists.
pub open spec fn holds_zone(entries: Seq<ZoneEntry>, zone: Zone) -> bool {
    exists|i: int| 0 <= i < entries.len() && (#[trigger] entries[i]).zone == zone
}

/// The number recorded for `zone`, if a row for it exists.
pub open spec fn value_of(entries: Seq<ZoneEntry>, zone: Zone) -> Option<u64> {
    if holds_zone(entries, zone) {
        let i = choose|i: int| 0 <= i < entries.len() && (#[trigger] entries[i]).zone == zone;
        Some(entries[i].value)
    } else {
        None
    }
}

/// The number recorded for `zone`, or 0 where no row exists.
pub open spec fn value_or_zero(entries: Seq<ZoneEntry>, zone: Zone) -> nat {
    match value_of(entries, zone) {
        Some(value) => value as nat,
        None => 0,
    }
}

/// Sum of the numbers of all rows.
pub open spec fn total_value(entries: Seq<ZoneEntry>) -> nat
    decreases entries.len(),
{
    if entries.len() == 0 {
        0
    } else {
        total_value(entries.drop_last()) + entries.last().value as nat
    }
}

/// In an ascending table, the number of rows whose zone lies below `zone`:
/// the place where a row for `zone` stands or would be put.
pub open spec fn rank(entries: Seq<ZoneEntry>, zone: Zone) -> int
    decreases entries.len(),
{
    if entries.len() == 0 {
        0
    } else if entries.last().zone.0 < zone.0 {
        entries.len() as int
    } else {
        rank(entries.drop_last(), zone)
    }
}

/// The table after `amount` has been added to the number of `zone`;
/// a zone without a row gets one, in its place.
pub open spec fn credited(entries: Seq<ZoneEntry>, zone: Zone, amount: u64) -> Seq<ZoneEntry> {
    let place = rank(entries, zone);
    if place < entries.len() && entries[place].zone == zone {
        entries.update(place, ZoneEntry { zone, value: (entries[place].value + amount) as u64 })
    } else {
        entries.insert(place, ZoneEntry { zone, value: amount })
    }
}

/// `rank` splits an ascending table into the rows below `zone` and the rest.
pub proof fn lemma_rank_splits(entries: Seq<ZoneEntry>, zone: Zone)
    requires
        ascending(entries),
    ensures
        0 <= rank(entries, zone) <= entries.len(),
        forall|i: int| 0 <= i < rank(entries, zone) ==> (#[trigger] entries[i]).zone.0 < zone.0,
        forall|i: int|
            rank(entries, zone) <= i < entries.len() ==> zone.0 <= (#[trigger] entries[i]).zone.0,
    decreases entries.len(),
{
    if entries.len() > 0 {
        let front = entries.drop_last();
        let last = entries.len() - 1;
        if entries.last().zone.0 < zone.0 {
            assert forall|i: int| 0 <= i < entries.len() implies (#[trigger] entries[i]).zone.0
                < zone.0 by {
                if i < last {
                    assert(entries[i].zone.0 < entries[last].zone.0);
                }
            }
        } else {
            assert forall|i: int, j: int| 0 <= i < j < front.len() implies (#[trigger] front[i]).zone.0
                < (#[trigger] front[j]).zone.0 by {
                assert(entries[i].zone.0 < entries[j].zone.0);
            }
            lemma_rank_splits(front, zone);
            assert forall|i: int| 0 <= i < rank(entries, zone) implies (#[trigger] entries[i]).zone.0
                < zone.0 by {
                assert(front[i] == entries[i]);
            }
            assert forall|i: int| rank(entries, zone) <= i < entries.len() implies zone.0 <= (
            #[trigger] entries[i]).zone.0 by {
                if i < last {
                    assert(front[i] == entries[i]);
                }
            }
        }
    }
}

/// The place that splits an ascending table at `zone` is its rank.
pub proof fn lemma_rank_unique(entries: Seq<ZoneEntry>, zone: Zone, place: int)
    requires
        ascending(entries),
        0 <= place <= entries.len(),
        forall|i: int| 0 <= i < place ==> (#[trigger] entries[i]).zone.0 < zone.0,
        forall|i: int| place <= i < entries.len() ==> zone.0 <= (#[trigger] entries[i]).zone.0,
    ensures
        place == rank(entries, zone),
{
    lemma_rank_splits(entries, zone);
    let r = rank(entries, zone);
    if place < r {
        assert(entries[place].zone.0 < zone.0);
    } else if r < place {
        assert(entries[r].zone.0 < zone.0);
    }
}

/// In an ascending table each row is the one that `value_of` finds for its zone.
pub proof fn lemma_value_at(entries: Seq<ZoneEntry>, i: int)
    requires
        ascending(entries),
        0 <= i < entries.len(),
    ensures
        holds_zone(entries, entries[i].zone),
        value_of(entries, entries[i].zone) == Some(entries[i].value),
{
    let zone = entries[i].zone;
    assert(holds_zone(entries, zone));
    let j = choose|j: int| 0 <= j < entries.len() && (#[trigger] entries[j]).zone == zone;
    if j < i {
        assert(entries[j].zone.0 < entries[i].zone.0);
    } else if i < j {
        assert(entries[i].zone.0 < entries[j].zone.0);
    }
}

/// A zone has a row exactly when the row at its rank is its own.
pub proof fn lemma_value_by_rank(entries: Seq<ZoneEntry>, zone: Zone)
    requires
        ascending(entries),
    ensures
        value_of(entries, zone) == if rank(entries, zone) < entries.len() && entries[rank(
            entries,
            zone,
        )].zone == zone {
            Some(entries[rank(entries, zone)].value)
        } else {
            None
        },
{
    lemma_rank_splits(entries, zone);
    let place = rank(entries, zone);
    if place < entries.len() && entries[place].zone == zone {
        lemma_value_at(entries, place);
    } else if holds_zone(entries, zone) {
        let j = choose|j: int| 0 <= j < entries.len() && (#[trigger] entries[j]).zone == zone;
        if j < place {
            assert(entries[j].zone.0 < zone.0);
        } else {
            assert(zone.0 <= entries[place].zone.0);
            if place < j {
                assert(entries[place].zone.0 < entries[j].zone.0);
            }
        }
    }
}

/// A prefix of an ascending table is ascending, and taking one more row into
/// the prefix adds that row's zone to it and changes no other zone.
pub proof fn lemma_prefix_step(entries: Seq<ZoneEntry>, zone: Zone, k: int)
    requires
        ascending(entries),
        0 <= k < entries.len(),
    ensures
        ascending(entries.take(k)),
        ascending(entries.take(k + 1)),
        value_of(entries.take(k + 1), zone) == if entries[k].zone == zone {
            Some(entries[k].value)
        } else {
            value_of(entries.take(k), zone)
        },
        entries[k].zone == zone ==> !holds_zone(entries.take(k), zone),
{
    let shorter = entries.take(k);
    let longer = entries.take(k + 1);
    assert forall|i: int, j: int| 0 <= i < j < longer.len() implies (#[trigger] longer[i]).zone.0
        < (#[trigger] longer[j]).zone.0 by {
        assert(entries[i].zone.0 < entries[j].zone.0);
    }
    assert forall|i: int, j: int| 0 <= i < j < shorter.len() implies (
    #[trigger] shorter[i]).zone.0 < (#[trigger] shorter[j]).zone.0 by {
        assert(entries[i].zone.0 < entries[j].zone.0);
    }
    if entries[k].zone == zone {
        assert(longer[k] == entries[k]);
        lemma_value_at(longer, k);
        if holds_zone(shorter, zone) {
            let i = choose|i: int| 0 <= i < shorter.len() && (#[trigger] shorter[i]).zone == zone;
            assert(entries[i].zone.0 < entries[k].zone.0);
        }
    } else if holds_zone(shorter, zone) {
        let i = choose|i: int| 0 <= i < shorter.len() && (#[trigger] shorter[i]).zone == zone;
        lemma_value_at(shorter, i);
        assert(longer[i] == shorter[i]);
        lemma_value_at(longer, i);
    } else if holds_zone(longer, zone) {
        let i = choose|i: int| 0 <= i < longer.len() && (#[trigger] longer[i]).zone == zone;
        assert(shorter[i].zone == zone);
    }
}

/// The sum of a table is that of a prefix plus that of the rest.
pub proof fn lemma_total_value_split(entries: Seq<ZoneEntry>, n: int)
    requires
        0 <= n <= entries.len(),
    ensures
        total_value(entries) == total_value(entries.take(n)) + total_value(entries.skip(n)),
    decreases entries.len(),
{
    if n == entries.len() {
        assert(entries.take(n) =~= entries);
        assert(entries.skip(n) =~= Seq::<ZoneEntry>::empty());
    } else {
        let front = entries.drop_last();
        lemma_total_value_split(front, n);
        assert(front.take(n) =~= entries.take(n));
        assert(entries.skip(n).drop_last() =~= front.skip(n));
    }
}

/// Each number of a table is part of its sum.
pub proof fn lemma_value_le_total(entries: Seq<ZoneEntry>, i: int)
    requires
        0 <= i < entries.len(),
    ensures
        entries[i].value <= total_value(entries),
    decreases entries.len(),
{
    if i < entries.len() - 1 {
        lemma_value_le_total(entries.drop_last(), i);
    }
}

/// Replacing one row changes the sum by the difference of the two numbers.
pub proof fn lemma_total_value_update(entries: Seq<ZoneEntry>, i: int, entry: ZoneEntry)
    requires
        0 <= i < entries.len(),
    ensures
        total_value(entries.update(i, entry)) + entries[i].value == total_value(entries)
            + entry.value,
    decreases entries.len(),
{
    let after = entries.update(i, entry);
    if i == entries.len() - 1 {
        assert(after.drop_last() =~= entries.drop_last());
    } else {
        lemma_total_value_update(entries.drop_last(), i, entry);
        assert(after.drop_last() =~= entries.drop_last().update(i, entry));
    }
}

/// A new row adds its number to the sum.
pub proof fn lemma_total_value_insert(entries: Seq<ZoneEntry>, i: int, entry: ZoneEntry)
    requires
        0 <= i <= entries.len(),
    ensures
        total_value(entries.insert(i, entry)) == total_value(entries) + entry.value,
    decreases entries.len(),
{
    let after = entries.insert(i, entry);
    if i == entries.len() {
        assert(after.drop_last() =~= entries);
    } else {
        lemma_total_value_insert(entries.drop_last(), i, entry);
        assert(after.drop_last() =~= entries.drop_last().insert(i, entry));
    }
}

/// What crediting a zone does to an ascending table: the order stays, the
/// zone's number grows by the amount, every other zone keeps its row, and the
/// sum grows by the amount.
pub proof fn lemma_credited(entries: Seq<ZoneEntry>, zone: Zone, amount: u64)
    requires
        ascending(entries),
        value_or_zero(entries, zone) + amount <= u64::MAX,
    ensures
        ascending(credited(entries, zone, amount)),
        value_of(credited(entries, zone, amount), zone) == Some(
            (value_or_zero(entries, zone) + amount) as u64,
        ),
        forall|other: Zone|
            other != zone ==> #[trigger] value_of(credited(entries, zone, amount), other)
                == value_of(entries, other),
        total_value(credited(entries, zone, amount)) == total_value(entries) + amount,
        credited(entries, zone, amount).len() == if holds_zone(entries, zone) {
            entries.len()
        } else {
            entries.len() + 1
        },
{
    lemma_rank_splits(entries, zone);
    lemma_value_by_rank(entries, zone);
    let place = rank(entries, zone);
    let after = credited(entries, zone, amount);
    if place < entries.len() && entries[place].zone == zone {
        let entry = ZoneEntry { zone, value: (entries[place].value + amount) as u64 };
        assert forall|i: int, j: int| 0 <= i < j < after.len() implies (#[trigger] after[i]).zone.0
            < (#[trigger] after[j]).zone.0 by {
            assert(entries[i].zone.0 < entries[j].zone.0);
        }
        lemma_value_at(after, place);
        lemma_total_value_update(entries, place, entry);
        assert forall|other: Zone| other != zone implies #[trigger] value_of(after, other)
            == value_of(entries, other) by {
            lemma_rank_splits(entries, other);
            lemma_value_by_rank(entries, other);
            lemma_rank_splits(after, other);
            assert forall|i: int| 0 <= i < rank(entries, other) implies (
            #[trigger] after[i]).zone.0 < other.0 by {
                assert(entries[i].zone.0 < other.0);
            }
            assert forall|i: int| rank(entries, other) <= i < after.len() implies other.0 <= (
            #[trigger] after[i]).zone.0 by {
                assert(other.0 <= entries[i].zone.0);
            }
            lemma_rank_unique(after, other, rank(entries, other));
            lemma_value_by_rank(after, other);
        }
    } else {
        let entry = ZoneEntry { zone, value: amount };
        assert forall|i: int, j: int| 0 <= i < j < after.len() implies (#[trigger] after[i]).zone.0
            < (#[trigger] after[j]).zone.0 by {
            if j < place {
                assert(entries[i].zone.0 < entries[j].zone.0);
            } else if j == place {
                assert(entries[i].zone.0 < zone.0);
            } else if i < place {
                assert(entries[i].zone.0 < entries[j - 1].zone.0);
            } else if i == place {
                assert(zone.0 <= entries[j - 1].zone.0);
            } else {
                assert(entries[i - 1].zone.0 < entries[j - 1].zone.0);
            }
        }
        lemma_value_at(after, place);
        lemma_total_value_insert(entries, place, entry);
        assert forall|other: Zone| other != zone implies #[trigger] value_of(after, other)
            == value_of(entries, other) by {
            if holds_zone(entries, other) {
                let i = choose|i: int| 0 <= i < entries.len() && (#[trigger] entries[i]).zone == other;
                lemma_value_at(entries, i);
                let k = if i < place {
                    i
                } else {
                    i + 1
                };
                assert(after[k] == entries[i]);
                lemma_value_at(after, k);
            } else if holds_zone(after, other) {
                let k = choose|k: int| 0 <= k < after.len() && (#[trigger] after[k]).zone == other;
                let i = if k < place {
                    k
                } else {
                    k - 1
                };
                assert(entries[i].zone == other);
            }
        }
    }
}

/// A table from zones to numbers, in ascending order of zone.
pub struct ZoneTable {
    entries: Vec<ZoneEntry>,
}

impl View for ZoneTable {
    type V = Seq<ZoneEntry>;

    closed spec fn view(&self) -> Seq<ZoneEntry> {
        self.entries@
    }
}

impl ZoneTable {
    /// The rows stand in ascending order of zone.
    pub open spec fn wf(&self) -> bool {
        ascending(self@)
    }

    /// The table without rows.
    pub fn new() -> (table: Self)
        ensures
            table@ == Seq::<ZoneEntry>::empty(),
            table.wf(),
    {
        ZoneTable { entries: Vec::new() }
    }

    /// Number of rows.
    pub fn len(&self) -> (n: usize)
        ensures
            n == self@.len(),
    {
        self.entries.len()
    }

    /// The row at `index`, counted in ascending order of zone.
    pub fn entry(&self, index: usize) -> (entry: ZoneEntry)
        requires
            index < self@.len(),
        ensures
            entry == self@[index as int],
    {
        self.entries[index]
    }

    /// Finds by bisection where the row for `zone` stands or would be put.
    pub fn position(&self, zone: Zone) -> (place: usize)
        requires
            self.wf(),
        ensures
            place == rank(self@, zone),
            place <= self@.len(),
    {
        let mut low: usize = 0;
        let mut high: usize = self.entries.len();
        while low < high
            invariant
                0 <= low <= high <= self.entries.len(),
                forall|i: int| 0 <= i < low ==> (#[trigger] self.entries@[i]).zone.0 < zone.0,
                forall|i: int|
                    high <= i < self.entries.len() ==> zone.0 <= (#[trigger] self.entries@[i]).zone.0,
                ascending(self.entries@),
            decreases high - low,
        {
            let middle: usize = low + (high - low) / 2;
            if self.entries[middle].zone.0 < zone.0 {
                proof {
                    assert forall|i: int| 0 <= i < middle + 1 implies (
                    #[trigger] self.entries@[i]).zone.0 < zone.0 by {
                        if i < middle {
                            assert(self.entries@[i].zone.0 < self.entries@[middle as int].zone.0);
                        }
                    }
                }
                low = middle + 1;
            } else {
                proof {
                    assert forall|i: int| middle <= i < self.entries.len() implies zone.0 <= (
                    #[trigger] self.entries@[i]).zone.0 by {
                        if middle < i {
                            assert(self.entries@[middle as int].zone.0 < self.entries@[i].zone.0);
                        }
                    }
                }
                high = middle;
            }
        }
        proof {
            lemma_rank_unique(self@, zone, low as int);
        }
        low
    }

    /// The number recorded for `zone`, if there is one.
    pub fn get(&self, zone: Zone) -> (value: Option<u64>)
        requires
            self.wf(),
        ensures
            value == value_of(self@, zone),
    {
        let place: usize = self.position(zone);
        proof {
            lemma_value_by_rank(self@, zone);
        }
        if place < self.entries.len() && self.entries[place].zone.0 == zone.0 {
            Some(self.entries[place].value)
        } else {
            None
        }
    }

    /// Adds `amount` to the number of `zone`; a zone without a row gets one.
    pub fn credit(&mut self, zone: Zone, amount: u64)
        requires
            old(self).wf(),
            value_or_zero(old(self)@, zone) + amount <= u64::MAX,
        ensures
            final(self)@ == credited(old(self)@, zone, amount),
            final(self).wf(),
    {
        let place: usize = self.position(zone);
        proof {
            lemma_value_by_rank(self@, zone);
            lemma_credited(self@, zone, amount);
        }
        if place < self.entries.len() && self.entries[place].zone.0 == zone.0 {
            let value: u64 = self.entries[place].value + amount;
            self.entries[place] = ZoneEntry { zone, value };
        } else {
            self.entries.insert(place, ZoneEntry { zone, value: amount });
        }
    }

    /// Puts a row for a zone above all zones of the table at its end.
    pub fn append(&mut self, zone: Zone, value: u64)
        requires
            old(self).wf(),
            old(self)@.len() > 0 ==> old(self)@.last().zone.0 < zone.0,
        ensures
            final(self)@ == old(self)@.push(ZoneEntry { zone, value }),
            final(self).wf(),
    {
        proof {
            let before = self@;
            let after = before.push(ZoneEntry { zone, value });
            assert forall|i: int, j: int| 0 <= i < j < after.len() implies (
            #[trigger] after[i]).zone.0 < (#[trigger] after[j]).zone.0 by {
                if j < before.len() {
                    assert(before[i].zone.0 < before[j].zone.0);
                } else if i < before.len() - 1 {
                    assert(before[i].zone.0 < before[before.len() - 1].zone.0);
                }
            }
        }
        self.entries.push(ZoneEntry { zone, value });
    }
}

} // verus!
