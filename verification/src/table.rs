//! Tables of running statistics, keyed by station name.
//!
//! A table keeps its stations in ascending order of name, so that a station
//! is found by bisection and the stations come out in order.

use vstd::prelude::*;
use vstd::slice::slice_to_vec;
use crate::names::{
    ascending, compare_names, lemma_ascending_distinct, lemma_name_lt_irreflexive,
    lemma_name_lt_transitive, name_lt, Standing,
};
use crate::summary::{Stats, Summary};
use crate::tally::{lemma_merge_empty, lemma_merge_enter, Tally};

verus! {

#[derive(Debug)]
struct Entry {
    name: Vec<u8>,
    summary: Summary,
}

/// A table of running statistics: one summary for each station that has
/// been recorded, and the number of readings taken in.
#[derive(Debug)]
pub struct Table {
    entries: Vec<Entry>,
    records: u64,
}

spec fn keys_of(es: Seq<Entry>) -> Seq<Seq<u8>> {
    Seq::new(es.len(), |i: int| es[i].name@)
}

spec fn total_of(es: Seq<Entry>) -> nat
    decreases es.len(),
{
    if es.len() == 0 {
        0
    } else {
        total_of(es.drop_last()) + es.last().summary@.count
    }
}

spec fn place(keys: Seq<Seq<u8>>, name: Seq<u8>) -> int {
    choose|i: int| 0 <= i < keys.len() && keys[i] == name
}

spec fn stations_of(es: Seq<Entry>) -> Map<Seq<u8>, Stats> {
    Map::new(
        |n: Seq<u8>| keys_of(es).contains(n),
        |n: Seq<u8>| es[place(keys_of(es), n)].summary@,
    )
}

spec fn tally_from(es: Seq<Entry>) -> Tally {
    Tally { stations: stations_of(es), records: total_of(es) }
}

/// `p` is where `name` stands, or would stand, among `keys`.
spec fn gap(keys: Seq<Seq<u8>>, p: int, name: Seq<u8>) -> bool {
    &&& 0 <= p <= keys.len()
    &&& forall|i: int| 0 <= i < p ==> name_lt(#[trigger] keys[i], name)
    &&& forall|i: int| p <= i < keys.len() ==> name_lt(name, #[trigger] keys[i])
}

proof fn lemma_place(keys: Seq<Seq<u8>>, i: int)
    requires
        ascending(keys),
        0 <= i < keys.len(),
    ensures
        place(keys, keys[i]) == i,
        keys.contains(keys[i]),
{
    lemma_ascending_distinct(keys);
}

proof fn lemma_gap_absent(keys: Seq<Seq<u8>>, p: int, name: Seq<u8>)
    requires
        gap(keys, p, name),
    ensures
        !keys.contains(name),
{
    lemma_name_lt_irreflexive(name);
    if keys.contains(name) {
        let i = choose|i: int| 0 <= i < keys.len() && keys[i] == name;
        if i < p {
            assert(name_lt(keys[i], name));
        } else {
            assert(name_lt(name, keys[i]));
        }
    }
}

proof fn lemma_total_update(es: Seq<Entry>, i: int, e: Entry)
    requires
        0 <= i < es.len(),
    ensures
        total_of(es.update(i, e)) + es[i].summary@.count == total_of(es) + e.summary@.count,
        es[i].summary@.count <= total_of(es),
    decreases es.len(),
{
    if i == es.len() - 1 {
        assert(es.update(i, e).drop_last() =~= es.drop_last());
    } else {
        assert(es.update(i, e).drop_last() =~= es.drop_last().update(i, e));
        lemma_total_update(es.drop_last(), i, e);
    }
}

proof fn lemma_total_insert(es: Seq<Entry>, i: int, e: Entry)
    requires
        0 <= i <= es.len(),
    ensures
        total_of(es.insert(i, e)) == total_of(es) + e.summary@.count,
    decreases es.len(),
{
    if i == es.len() {
        assert(es.insert(i, e).drop_last() =~= es);
    } else {
        assert(es.insert(i, e).drop_last() =~= es.drop_last().insert(i, e));
        lemma_total_insert(es.drop_last(), i, e);
    }
}

/// Entries with the same names and summaries make the same table.
proof fn lemma_same(a: Seq<Entry>, b: Seq<Entry>)
    requires
        a.len() == b.len(),
        forall|i: int|
            0 <= i < a.len() ==> (#[trigger] a[i]).name@ == b[i].name@ && a[i].summary
                == b[i].summary,
    ensures
        keys_of(a) == keys_of(b),
        total_of(a) == total_of(b),
        stations_of(a) == stations_of(b),
    decreases a.len(),
{
    assert(keys_of(a) =~= keys_of(b));
    if a.len() > 0 {
        assert(a[a.len() - 1].summary == b[b.len() - 1].summary);
        lemma_same(a.drop_last(), b.drop_last());
    }
    assert forall|n: Seq<u8>| keys_of(a).contains(n) implies #[trigger] stations_of(a)[n]
        == stations_of(b)[n] by {
        let i = place(keys_of(a), n);
        assert(a[i].summary == b[i].summary);
    }
    assert(stations_of(a) =~= stations_of(b));
}

/// Replacing the summary of the station at `p` changes that station's
/// statistics and nothing else.
proof fn lemma_update(es: Seq<Entry>, p: int, e: Entry)
    requires
        ascending(keys_of(es)),
        0 <= p < es.len(),
        e.name@ == es[p].name@,
    ensures
        keys_of(es.update(p, e)) == keys_of(es),
        stations_of(es.update(p, e)) == stations_of(es).insert(e.name@, e.summary@),
        stations_of(es).contains_key(e.name@),
        stations_of(es)[e.name@] == es[p].summary@,
{
    let keys = keys_of(es);
    let after = es.update(p, e);
    assert(keys_of(after) =~= keys);
    lemma_place(keys, p);
    assert(keys[p] == e.name@);
    assert forall|n: Seq<u8>| keys.contains(n) implies #[trigger] stations_of(after)[n] == (if n
        == e.name@ {
        e.summary@
    } else {
        stations_of(es)[n]
    }) by {
        let i = place(keys, n);
        lemma_place(keys, i);
    }
    assert(stations_of(after) =~= stations_of(es).insert(e.name@, e.summary@));
}

/// Entering a new station in its place keeps the order and adds that
/// station and nothing else.
proof fn lemma_insert(es: Seq<Entry>, p: int, e: Entry)
    requires
        ascending(keys_of(es)),
        gap(keys_of(es), p, e.name@),
    ensures
        ascending(keys_of(es.insert(p, e))),
        !stations_of(es).contains_key(e.name@),
        stations_of(es.insert(p, e)) == stations_of(es).insert(e.name@, e.summary@),
{
    let keys = keys_of(es);
    let after = es.insert(p, e);
    let keys2 = keys_of(after);
    lemma_gap_absent(keys, p, e.name@);
    assert(keys2 =~= keys.insert(p, e.name@));
    assert forall|i: int, j: int| 0 <= i < j < keys2.len() implies name_lt(
        #[trigger] keys2[i],
        #[trigger] keys2[j],
    ) by {
        let a = if i < p { i } else { i - 1 };
        let b = if j < p { j } else { j - 1 };
        if i == p {
            assert(keys2[j] == keys[b]);
        } else if j == p {
            assert(keys2[i] == keys[a]);
        } else {
            assert(keys2[i] == keys[a] && keys2[j] == keys[b]);
        }
    }
    assert forall|n: Seq<u8>| keys2.contains(n) <==> (n == e.name@ || keys.contains(n)) by {
        if keys2.contains(n) {
            let i = choose|i: int| 0 <= i < keys2.len() && keys2[i] == n;
            if i < p {
                assert(keys[i] == n);
            } else if i > p {
                assert(keys[i - 1] == n);
            }
        }
        if n == e.name@ {
            assert(keys2[p] == n);
        }
        if keys.contains(n) {
            let i = choose|i: int| 0 <= i < keys.len() && keys[i] == n;
            if i < p {
                assert(keys2[i] == n);
            } else {
                assert(keys2[i + 1] == n);
            }
        }
    }
    assert forall|n: Seq<u8>| keys2.contains(n) implies #[trigger] stations_of(after)[n] == (if n
        == e.name@ {
        e.summary@
    } else {
        stations_of(es)[n]
    }) by {
        if n == e.name@ {
            assert(keys2[p] == n);
            lemma_place(keys2, p);
        } else {
            let i = place(keys, n);
            lemma_place(keys, i);
            let i2 = if i < p { i } else { i + 1 };
            assert(keys2[i2] == n);
            lemma_place(keys2, i2);
        }
    }
    assert(stations_of(after) =~= stations_of(es).insert(e.name@, e.summary@));
}

/// Finds where `name` stands among the entries, or where it would.
fn locate(es: &Vec<Entry>, name: &[u8]) -> (r: (usize, bool))
    requires
        ascending(keys_of(es@)),
    ensures
        r.1 ==> r.0 < es@.len() && es@[r.0 as int].name@ == name@,
        !r.1 ==> gap(keys_of(es@), r.0 as int, name@),
{
    let ghost keys = keys_of(es@);
    let mut lo: usize = 0;
    let mut hi: usize = es.len();
    while lo < hi
        invariant
            keys == keys_of(es@),
            ascending(keys),
            0 <= lo <= hi <= es@.len(),
            forall|i: int| 0 <= i < lo ==> name_lt(#[trigger] keys[i], name@),
            forall|i: int| hi <= i < keys.len() ==> name_lt(name@, #[trigger] keys[i]),
        decreases hi - lo,
    {
        let mid = lo + (hi - lo) / 2;
        assert(keys[mid as int] == es@[mid as int].name@);
        match compare_names(es[mid].name.as_slice(), name) {
            Standing::Before => {
                proof {
                    assert forall|i: int| 0 <= i < mid + 1 implies name_lt(
                        #[trigger] keys[i],
                        name@,
                    ) by {
                        if i < mid {
                            lemma_name_lt_transitive(keys[i], keys[mid as int], name@);
                        }
                    }
                }
                lo = mid + 1;
            },
            Standing::Same => {
                return (mid, true);
            },
            Standing::After => {
                proof {
                    assert forall|i: int| mid <= i < keys.len() implies name_lt(
                        name@,
                        #[trigger] keys[i],
                    ) by {
                        if i > mid {
                            lemma_name_lt_transitive(name@, keys[mid as int], keys[i]);
                        }
                    }
                }
                hi = mid;
            },
        }
    }
    (lo, false)
}

/// Takes one reading in: the station's summary where the station is known,
/// else a new entry in its place.
fn put_reading(es: &mut Vec<Entry>, name: &[u8], value: i64)
    requires
        ascending(keys_of(old(es)@)),
        total_of(old(es)@) < u64::MAX,
    ensures
        ascending(keys_of(final(es)@)),
        tally_from(final(es)@) == tally_from(old(es)@).absorb(name@, value as int),
{
    let (p, found) = locate(es, name);
    if found {
        proof {
            lemma_total_update(es@, p as int, es@[p as int]);
        }
        es[p].summary.absorb(value);
        proof {
            lemma_update(old(es)@, p as int, es@[p as int]);
            lemma_total_update(old(es)@, p as int, es@[p as int]);
            assert(es@ == old(es)@.update(p as int, es@[p as int]));
        }
    } else {
        let e = Entry { name: slice_to_vec(name), summary: Summary::single(value) };
        proof {
            lemma_insert(es@, p as int, e);
            lemma_total_insert(es@, p as int, e);
        }
        es.insert(p, e);
    }
}

/// Takes one station's summary in: combined with the station's own where
/// the station is known, else as a new entry in its place.
fn put_entry(es: &mut Vec<Entry>, e: Entry)
    requires
        ascending(keys_of(old(es)@)),
        total_of(old(es)@) + e.summary@.count <= u64::MAX,
    ensures
        ascending(keys_of(final(es)@)),
        tally_from(final(es)@) == tally_from(old(es)@).enter(e.name@, e.summary@),
{
    let (p, found) = locate(es, e.name.as_slice());
    if found {
        proof {
            lemma_total_update(es@, p as int, es@[p as int]);
        }
        es[p].summary.combine(&e.summary);
        proof {
            lemma_update(old(es)@, p as int, es@[p as int]);
            lemma_total_update(old(es)@, p as int, es@[p as int]);
            assert(es@ == old(es)@.update(p as int, es@[p as int]));
        }
    } else {
        proof {
            lemma_insert(es@, p as int, e);
            lemma_total_insert(es@, p as int, e);
        }
        es.insert(p, e);
    }
}

impl View for Table {
    type V = Tally;

    closed spec fn view(&self) -> Tally {
        Tally { stations: stations_of(self.entries@), records: self.records as nat }
    }
}

impl Clone for Table {
    /// A table with the same stations, summaries and number of readings.
    fn clone(&self) -> (t: Table)
        ensures
            t@ == self@,
            t.keys() == self.keys(),
    {
        proof {
            use_type_invariant(self);
        }
        let n = self.entries.len();
        let mut entries: Vec<Entry> = Vec::new();
        let mut i: usize = 0;
        while i < n
            invariant
                i <= n == self.entries@.len(),
                entries@.len() == i,
                forall|j: int|
                    0 <= j < i ==> (#[trigger] entries@[j]).name@ == self.entries@[j].name@
                        && entries@[j].summary == self.entries@[j].summary,
            decreases n - i,
        {
            let e = &self.entries[i];
            entries.push(Entry { name: slice_to_vec(e.name.as_slice()), summary: e.summary });
            i += 1;
        }
        proof {
            lemma_same(entries@, self.entries@);
        }
        Table { entries, records: self.records }
    }
}

impl Table {
    #[verifier::type_invariant]
    spec fn inv(self) -> bool {
        &&& ascending(keys_of(self.entries@))
        &&& total_of(self.entries@) == self.records
    }

    /// The station names in the order in which the table keeps them.
    pub closed spec fn keys(&self) -> Seq<Seq<u8>> {
        keys_of(self.entries@)
    }

    /// The stations of a table are those among its keys.
    pub proof fn lemma_keys_cover(self)
        ensures
            forall|n: Seq<u8>| self@.stations.contains_key(n) <==> self.keys().contains(n),
    {
    }

    /// A table without stations.
    pub fn new() -> (t: Table)
        ensures
            t@ == Tally::empty(),
            t.keys() == Seq::<Seq<u8>>::empty(),
    {
        let t = Table { entries: Vec::new(), records: 0 };
        proof {
            assert(t@.stations =~= Tally::empty().stations);
            assert(t.keys() =~= Seq::<Seq<u8>>::empty());
        }
        t
    }

    /// The number of stations. The keys stand in ascending order, so no
    /// station occurs twice.
    pub fn len(&self) -> (n: usize)
        ensures
            n == self.keys().len(),
            ascending(self.keys()),
    {
        proof {
            use_type_invariant(self);
        }
        self.entries.len()
    }

    /// The number of readings taken in.
    pub fn records(&self) -> (n: u64)
        ensures
            n == self@.records,
    {
        self.records
    }

    /// The name of the station at place `i`.
    pub fn name_at(&self, i: usize) -> (name: &[u8])
        requires
            i < self.keys().len(),
        ensures
            name@ == self.keys()[i as int],
    {
        self.entries[i].name.as_slice()
    }

    /// The summary of the station at place `i`.
    pub fn summary_at(&self, i: usize) -> (s: Summary)
        requires
            i < self.keys().len(),
        ensures
            self@.stations.contains_key(self.keys()[i as int]),
            s@ == self@.stations[self.keys()[i as int]],
    {
        proof {
            use_type_invariant(self);
            lemma_place(keys_of(self.entries@), i as int);
        }
        self.entries[i].summary
    }

    /// The summary of a station, where the table holds it.
    pub fn get(&self, name: &[u8]) -> (r: Option<Summary>)
        ensures
            r.is_some() == self@.stations.contains_key(name@),
            r.is_some() ==> r.unwrap()@ == self@.stations[name@],
    {
        proof {
            use_type_invariant(self);
        }
        let (p, found) = locate(&self.entries, name);
        if found {
            proof {
                assert(keys_of(self.entries@)[p as int] == name@);
                lemma_place(keys_of(self.entries@), p as int);
            }
            Some(self.entries[p].summary)
        } else {
            proof {
                lemma_gap_absent(keys_of(self.entries@), p as int, name@);
            }
            None
        }
    }

    /// Takes one reading in. There must be room to count it.
    pub fn record(&mut self, name: &[u8], value: i64)
        requires
            old(self)@.records < u64::MAX,
        ensures
            final(self)@ == old(self)@.absorb(name@, value as int),
    {
        proof {
            use_type_invariant(&*self);
        }
        let mut whole = Table::new();
        core::mem::swap(self, &mut whole);
        let Table { mut entries, records } = whole;
        put_reading(&mut entries, name, value);
        *self = Table { entries, records: records + 1 };
    }

    /// Takes in every station of another table. Where the two tables hold
    /// more readings together than a `u64` counts, nothing is merged and
    /// the other table comes back.
    pub fn merge(&mut self, other: Table) -> (r: Result<(), Table>)
        ensures
            r.is_ok() == (old(self)@.records + other@.records <= u64::MAX),
            r.is_ok() ==> final(self)@ == old(self)@.merge(other@),
            r.is_err() ==> final(self)@ == old(self)@ && r.unwrap_err()@ == other@,
    {
        proof {
            use_type_invariant(&*self);
            use_type_invariant(&other);
        }
        if self.records > u64::MAX - other.records {
            return Err(other);
        }
        let ghost mine = self@;
        let ghost theirs = other.entries@;
        let mut whole = Table::new();
        core::mem::swap(self, &mut whole);
        let Table { mut entries, records } = whole;
        let Table { entries: mut rest, records: more } = other;
        proof {
            assert(theirs.skip(theirs.len() as int) =~= Seq::<Entry>::empty());
            assert(stations_of(Seq::<Entry>::empty()) =~= Tally::empty().stations);
            lemma_merge_empty(mine);
        }
        while rest.len() > 0
            invariant
                rest@ == theirs.take(rest@.len() as int),
                rest@.len() <= theirs.len(),
                ascending(keys_of(theirs)),
                ascending(keys_of(entries@)),
                tally_from(entries@) == mine.merge(tally_from(theirs.skip(rest@.len() as int))),
                total_of(rest@) + total_of(theirs.skip(rest@.len() as int)) == more,
                mine.records + more <= u64::MAX,
            decreases rest@.len(),
        {
            let ghost k = rest@.len() as int;
            let ghost done = theirs.skip(k);
            let e = rest.pop().unwrap();
            proof {
                let keys = keys_of(theirs);
                assert(e == theirs[k - 1]);
                assert(rest@ =~= theirs.take(k - 1));
                assert(theirs.skip(k - 1) =~= done.insert(0, e));
                assert(ascending(keys_of(done))) by {
                    assert forall|i: int, j: int| 0 <= i < j < done.len() implies name_lt(
                        #[trigger] keys_of(done)[i],
                        #[trigger] keys_of(done)[j],
                    ) by {
                        assert(keys_of(done)[i] == keys[k + i] && keys_of(done)[j] == keys[k + j]);
                    }
                }
                assert(gap(keys_of(done), 0, e.name@)) by {
                    assert forall|i: int| 0 <= i < done.len() implies name_lt(
                        e.name@,
                        #[trigger] keys_of(done)[i],
                    ) by {
                        assert(keys_of(done)[i] == keys[k + i] && e.name@ == keys[k - 1]);
                    }
                }
                lemma_insert(done, 0, e);
                lemma_total_insert(done, 0, e);
                lemma_merge_enter(mine, tally_from(done), e.name@, e.summary@);
            }
            put_entry(&mut entries, e);
        }
        proof {
            assert(theirs.skip(0) =~= theirs);
        }
        *self = Table { entries, records: records + more };
        Ok(())
    }
}

} // verus!
