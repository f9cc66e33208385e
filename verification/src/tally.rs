//! What a run computes, as mathematics.
//!
//! A tally maps each station name to the statistics of its readings and
//! counts the readings taken in. It is defined here by folding readings in
//! one by one; the laws below say what the fold amounts to, and that tallies
//! of parts of an input merge into the tally of the whole, in any order.

use vstd::prelude::*;
use crate::summary::{lemma_absorb_consistent, Stats};

verus! {

/// One observation: a station name and a temperature, as a whole number of
/// units (see `number`).
pub struct Reading {
    pub name: Seq<u8>,
    pub value: int,
}

/// The statistics of every station seen, and the number of readings.
pub struct Tally {
    pub stations: Map<Seq<u8>, Stats>,
    pub records: nat,
}

impl Tally {
    /// The tally of no readings.
    pub open spec fn empty() -> Tally {
        Tally { stations: Map::empty(), records: 0 }
    }

    /// The tally after one more reading: a station seen for the first time
    /// starts with the statistics of that one reading, a known station
    /// takes the reading in.
    pub open spec fn absorb(self, name: Seq<u8>, value: int) -> Tally {
        Tally {
            stations: self.stations.insert(
                name,
                if self.stations.contains_key(name) {
                    self.stations[name].absorb(value)
                } else {
                    Stats::single(value)
                },
            ),
            records: self.records + 1,
        }
    }

    /// The tally after taking in the statistics of one station from
    /// elsewhere: a new station is entered as it is, a known one is
    /// combined.
    pub open spec fn enter(self, name: Seq<u8>, stats: Stats) -> Tally {
        Tally {
            stations: self.stations.insert(
                name,
                if self.stations.contains_key(name) {
                    self.stations[name].combine(stats)
                } else {
                    stats
                },
            ),
            records: self.records + stats.count,
        }
    }

    /// The tally of two groups of readings taken together.
    pub open spec fn merge(self, other: Tally) -> Tally {
        Tally {
            stations: Map::new(
                |n: Seq<u8>| self.stations.contains_key(n) || other.stations.contains_key(n),
                |n: Seq<u8>|
                    if self.stations.contains_key(n) && other.stations.contains_key(n) {
                        self.stations[n].combine(other.stations[n])
                    } else if self.stations.contains_key(n) {
                        self.stations[n]
                    } else {
                        other.stations[n]
                    },
            ),
            records: self.records + other.records,
        }
    }

    /// Every station's statistics are consistent.
    pub open spec fn consistent(self) -> bool {
        forall|n: Seq<u8>| #[trigger]
            self.stations.contains_key(n) ==> self.stations[n].consistent()
    }
}

/// The tally of a sequence of readings, folded in from first to last.
pub open spec fn tally_of(readings: Seq<Reading>) -> Tally
    decreases readings.len(),
{
    if readings.len() == 0 {
        Tally::empty()
    } else {
        tally_of(readings.drop_last()).absorb(readings.last().name, readings.last().value)
    }
}

/// How many of the readings belong to a station.
pub open spec fn station_count(readings: Seq<Reading>, name: Seq<u8>) -> nat
    decreases readings.len(),
{
    if readings.len() == 0 {
        0
    } else {
        station_count(readings.drop_last(), name) + if readings.last().name == name {
            1nat
        } else {
            0nat
        }
    }
}

/// The sum of the readings that belong to a station.
pub open spec fn station_sum(readings: Seq<Reading>, name: Seq<u8>) -> int
    decreases readings.len(),
{
    if readings.len() == 0 {
        0
    } else {
        station_sum(readings.drop_last(), name) + if readings.last().name == name {
            readings.last().value
        } else {
            0
        }
    }
}

/// Merging with a tally that has just entered a new station is merging
/// first and entering afterwards.
pub proof fn lemma_merge_enter(a: Tally, d: Tally, name: Seq<u8>, stats: Stats)
    requires
        !d.stations.contains_key(name),
    ensures
        a.merge(d.enter(name, stats)) == a.merge(d).enter(name, stats),
{
    assert(a.merge(d.enter(name, stats)).stations =~= a.merge(d).enter(name, stats).stations);
}

/// Merging with a tally that has just taken a reading in is merging first
/// and taking the reading in afterwards.
pub proof fn lemma_merge_absorb(a: Tally, b: Tally, name: Seq<u8>, value: int)
    ensures
        a.merge(b.absorb(name, value)) == a.merge(b).absorb(name, value),
{
    let l = a.merge(b.absorb(name, value));
    let r = a.merge(b).absorb(name, value);
    if a.stations.contains_key(name) && b.stations.contains_key(name) {
        let x = a.stations[name];
        let y = b.stations[name];
        assert(x.combine(y.absorb(value)) == x.combine(y).absorb(value));
    } else if a.stations.contains_key(name) {
        let x = a.stations[name];
        assert(x.combine(Stats::single(value)) == x.absorb(value));
    }
    assert(l.stations =~= r.stations);
}

/// The empty tally is neutral for merging.
pub proof fn lemma_merge_empty(a: Tally)
    ensures
        a.merge(Tally::empty()) == a,
        Tally::empty().merge(a) == a,
{
    assert(a.merge(Tally::empty()).stations =~= a.stations);
    assert(Tally::empty().merge(a).stations =~= a.stations);
}

/// Merging does not depend on which tally comes first.
pub proof fn lemma_merge_commutative(a: Tally, b: Tally)
    ensures
        a.merge(b) == b.merge(a),
{
    assert forall|n: Seq<u8>| a.stations.contains_key(n) && b.stations.contains_key(n) implies
        a.stations[n].combine(b.stations[n]) == b.stations[n].combine(a.stations[n]) by {}
    assert(a.merge(b).stations =~= b.merge(a).stations);
}

/// Merging does not depend on how three tallies are grouped.
pub proof fn lemma_merge_associative(a: Tally, b: Tally, c: Tally)
    ensures
        a.merge(b).merge(c) == a.merge(b.merge(c)),
{
    assert forall|n: Seq<u8>|
        a.stations.contains_key(n) && b.stations.contains_key(n) && c.stations.contains_key(
            n,
        ) implies a.stations[n].combine(b.stations[n]).combine(c.stations[n])
        == a.stations[n].combine(b.stations[n].combine(c.stations[n])) by {}
    assert(a.merge(b).merge(c).stations =~= a.merge(b.merge(c)).stations);
}

/// The tally of two runs of readings, one after the other, is the merge of
/// their tallies.
pub proof fn lemma_tally_of_concat(a: Seq<Reading>, b: Seq<Reading>)
    ensures
        tally_of(a + b) == tally_of(a).merge(tally_of(b)),
    decreases b.len(),
{
    if b.len() == 0 {
        assert(a + b =~= a);
        lemma_merge_empty(tally_of(a));
    } else {
        let r = b.last();
        assert((a + b).drop_last() =~= a + b.drop_last());
        assert((a + b).last() == r);
        lemma_tally_of_concat(a, b.drop_last());
        lemma_merge_absorb(tally_of(a), tally_of(b.drop_last()), r.name, r.value);
    }
}

/// A tally holds exactly the stations that occur among the readings, and
/// counts every reading.
pub proof fn lemma_tally_stations(readings: Seq<Reading>)
    ensures
        forall|n: Seq<u8>|
            tally_of(readings).stations.contains_key(n) <==> exists|i: int|
                0 <= i < readings.len() && (#[trigger] readings[i]).name == n,
        tally_of(readings).records == readings.len(),
    decreases readings.len(),
{
    if readings.len() > 0 {
        let front = readings.drop_last();
        let r = readings.last();
        lemma_tally_stations(front);
        assert forall|n: Seq<u8>|
            tally_of(readings).stations.contains_key(n) <==> exists|i: int|
                0 <= i < readings.len() && (#[trigger] readings[i]).name == n by {
            if tally_of(readings).stations.contains_key(n) {
                if n == r.name {
                    assert(readings[readings.len() - 1].name == n);
                } else {
                    let i = choose|i: int| 0 <= i < front.len() && (#[trigger] front[i]).name == n;
                    assert(readings[i].name == n);
                }
            }
            if exists|i: int| 0 <= i < readings.len() && (#[trigger] readings[i]).name == n {
                let i = choose|i: int|
                    0 <= i < readings.len() && (#[trigger] readings[i]).name == n;
                if i < front.len() {
                    assert(front[i].name == n);
                }
            }
        }
    }
}

/// The minimum and the maximum that a tally reports for a station bound
/// every reading of that station, and each is one of its readings.
pub proof fn lemma_tally_extrema(readings: Seq<Reading>, name: Seq<u8>)
    requires
        tally_of(readings).stations.contains_key(name),
    ensures
        forall|i: int|
            0 <= i < readings.len() && (#[trigger] readings[i]).name == name ==> tally_of(
                readings,
            ).stations[name].min <= readings[i].value <= tally_of(readings).stations[name].max,
        exists|i: int|
            0 <= i < readings.len() && (#[trigger] readings[i]).name == name
                && readings[i].value == tally_of(readings).stations[name].min,
        exists|i: int|
            0 <= i < readings.len() && (#[trigger] readings[i]).name == name
                && readings[i].value == tally_of(readings).stations[name].max,
    decreases readings.len(),
{
    let front = readings.drop_last();
    let r = readings.last();
    let now = tally_of(readings).stations[name];
    let last = readings.len() - 1;
    if tally_of(front).stations.contains_key(name) {
        let before = tally_of(front).stations[name];
        lemma_tally_extrema(front, name);
        let lo = choose|i: int|
            0 <= i < front.len() && (#[trigger] front[i]).name == name && front[i].value
                == before.min;
        let hi = choose|i: int|
            0 <= i < front.len() && (#[trigger] front[i]).name == name && front[i].value
                == before.max;
        assert(readings[lo] == front[lo] && readings[hi] == front[hi]);
        if r.name == name {
            assert(readings[last].name == name);
            assert(now == before.absorb(r.value));
            let wlo = if r.value < before.min { last } else { lo };
            let whi = if r.value > before.max { last } else { hi };
            assert(readings[wlo].name == name && readings[wlo].value == now.min);
            assert(readings[whi].name == name && readings[whi].value == now.max);
        } else {
            assert(now == before);
            assert(readings[lo].name == name && readings[lo].value == now.min);
            assert(readings[hi].name == name && readings[hi].value == now.max);
        }
        assert forall|i: int|
            0 <= i < readings.len() && (#[trigger] readings[i]).name == name implies now.min
            <= readings[i].value <= now.max by {
            if i < last {
                assert(front[i].name == name);
            }
        }
    } else {
        lemma_tally_stations(front);
        assert(now == Stats::single(r.value));
        assert(readings[last].name == name && readings[last].value == now.min);
        assert forall|i: int|
            0 <= i < readings.len() && (#[trigger] readings[i]).name == name implies now.min
            <= readings[i].value <= now.max by {
            if i < last {
                assert(front[i].name == name);
            }
        }
    }
}

/// The sum and the count that a tally reports for a station are the sum
/// and the number of that station's readings.
pub proof fn lemma_tally_sum_count(readings: Seq<Reading>, name: Seq<u8>)
    ensures
        tally_of(readings).stations.contains_key(name) <==> station_count(readings, name) > 0,
        station_count(readings, name) == 0 ==> station_sum(readings, name) == 0,
        tally_of(readings).stations.contains_key(name) ==> {
            &&& tally_of(readings).stations[name].sum == station_sum(readings, name)
            &&& tally_of(readings).stations[name].count == station_count(readings, name)
        },
    decreases readings.len(),
{
    if readings.len() > 0 {
        lemma_tally_sum_count(readings.drop_last(), name);
    }
}

/// Every station of a tally of readings has consistent statistics.
pub proof fn lemma_tally_consistent(readings: Seq<Reading>)
    ensures
        tally_of(readings).consistent(),
    decreases readings.len(),
{
    if readings.len() > 0 {
        let front = readings.drop_last();
        let r = readings.last();
        lemma_tally_consistent(front);
        assert forall|n: Seq<u8>| #[trigger]
            tally_of(readings).stations.contains_key(n) implies tally_of(
            readings,
        ).stations[n].consistent() by {
            if n == r.name {
                if tally_of(front).stations.contains_key(n) {
                    lemma_absorb_consistent(tally_of(front).stations[n], r.value);
                }
            } else {
                assert(tally_of(front).stations.contains_key(n));
            }
        }
    }
}

} // verus!
