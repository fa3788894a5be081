//! The aggregate of all reported measurements: one running summary per
//! clause key.

use crate::clause::{records_of, ClauseData, Record};
use crate::stats::{ClauseStats, Fraction, Summary};
use std::collections::HashMap;
use vstd::prelude::*;
use vstd::seq_lib::*;
use vstd::std_specs::hash::*;

verus! {

/// A clause key with the summary of the metric values reported for it.
pub type Entry = (Seq<i32>, Summary);

/// The aggregate after one more measurement: the summary under the
/// measurement's key takes in the metric value; a key not seen before
/// starts a summary of its own.
pub open spec fn absorb(map: Map<Seq<i32>, Summary>, record: Record) -> Map<Seq<i32>, Summary> {
    if map.dom().contains(record.key) {
        map.insert(record.key, map[record.key].push(record.metric as int))
    } else {
        map.insert(record.key, Summary::empty().push(record.metric as int))
    }
}

/// The aggregate of a series of measurements.
pub open spec fn aggregate(records: Seq<Record>) -> Map<Seq<i32>, Summary>
    decreases records.len(),
{
    if records.len() == 0 {
        Map::empty()
    } else {
        absorb(aggregate(records.drop_last()), records.last())
    }
}

/// Whether some entry has this key.
pub open spec fn has_key(entries: Seq<Entry>, key: Seq<i32>) -> bool {
    exists|i: int| 0 <= i < entries.len() && (#[trigger] entries[i]).0 == key
}

/// The place of an entry with this key.
pub open spec fn index_of_key(entries: Seq<Entry>, key: Seq<i32>) -> int {
    choose|i: int| 0 <= i < entries.len() && (#[trigger] entries[i]).0 == key
}

/// No key has two entries.
pub open spec fn distinct_keys(entries: Seq<Entry>) -> bool {
    forall|i: int, j: int|
        0 <= i < entries.len() && 0 <= j < entries.len() && i != j ==> (#[trigger] entries[i]).0
            != (#[trigger] entries[j]).0
}

/// The entries after one more measurement, in the order in which their keys
/// were first seen: the entry of the measurement's key takes in the metric
/// value where it stands; a key not seen before gets an entry at the end.
pub open spec fn absorb_entry(entries: Seq<Entry>, record: Record) -> Seq<Entry> {
    if has_key(entries, record.key) {
        let i = index_of_key(entries, record.key);
        entries.update(i, (record.key, entries[i].1.push(record.metric as int)))
    } else {
        entries.push((record.key, Summary::empty().push(record.metric as int)))
    }
}

/// The entries after a series of measurements.
pub open spec fn aggregate_entries(records: Seq<Record>) -> Seq<Entry>
    decreases records.len(),
{
    if records.len() == 0 {
        Seq::empty()
    } else {
        absorb_entry(aggregate_entries(records.drop_last()), records.last())
    }
}

/// The entries as a map from key to summary.
pub open spec fn map_of(entries: Seq<Entry>) -> Map<Seq<i32>, Summary>
    decreases entries.len(),
{
    if entries.len() == 0 {
        Map::empty()
    } else {
        map_of(entries.drop_last()).insert(entries.last().0, entries.last().1)
    }
}

/// A summary worth a line in the report: of at least two values that are
/// not all the same.
pub open spec fn informative(summary: Summary) -> bool {
    summary.count >= 2 && summary.variance_num() != 0
}

/// One line of the report.
pub struct Row {
    pub count: nat,
    pub mean_num: int,
    pub mean_den: int,
    pub variance_num: int,
    pub variance_den: int,
    pub clause_len: nat,
}

/// The report line of an entry.
pub open spec fn row_of(entry: Entry) -> Row {
    Row {
        count: entry.1.count,
        mean_num: entry.1.sum,
        mean_den: entry.1.count as int,
        variance_num: entry.1.variance_num(),
        variance_den: entry.1.variance_den(),
        clause_len: entry.0.len(),
    }
}

/// The report of a series of entries: a line for each informative one, in
/// the order of the entries.
pub open spec fn report_of(entries: Seq<Entry>) -> Seq<Row>
    decreases entries.len(),
{
    if entries.len() == 0 {
        Seq::empty()
    } else if informative(entries.last().1) {
        report_of(entries.drop_last()).push(row_of(entries.last()))
    } else {
        report_of(entries.drop_last())
    }
}

/// One line of the report: how often the clause was reported, the mean and
/// the sample variance of its metric values, and how many literals it has.
#[derive(Clone, Copy, Debug)]
pub struct ReportRow {
    pub count: u32,
    pub mean: Fraction,
    pub variance: Fraction,
    pub clause_len: usize,
}

impl View for ReportRow {
    type V = Row;

    open spec fn view(&self) -> Row {
        Row {
            count: self.count as nat,
            mean_num: self.mean.num as int,
            mean_den: self.mean.den as int,
            variance_num: self.variance.num as int,
            variance_den: self.variance.den as int,
            clause_len: self.clause_len as nat,
        }
    }
}

/// The lines held by a series of report rows.
pub open spec fn rows_of(rows: Seq<ReportRow>) -> Seq<Row> {
    rows.map_values(|row: ReportRow| row@)
}

/// Whether two keys hold the same literals in the same order.
pub fn same_key(a: &Vec<i32>, b: &Vec<i32>) -> (same: bool)
    ensures
        same == (a@ == b@),
{
    if a.len() != b.len() {
        return false;
    }
    let mut i: usize = 0;
    while i < a.len()
        invariant
            i <= a.len(),
            a.len() == b.len(),
            forall|j: int| 0 <= j < i ==> a@[j] == b@[j],
        decreases a.len() - i,
    {
        if a[i] != b[i] {
            return false;
        }
        i = i + 1;
    }
    assert(a@ =~= b@);
    true
}

/// The hash after one more literal.
spec fn mix(hash: u64, literal: i32) -> u64 {
    ((hash as int * 0x100_0000_01b3 + (literal as int + 0x8000_0000)) % 0x1_0000_0000_0000_0000) as u64
}

/// The hash of a key, by which its entry is found again.
spec fn key_hash(key: Seq<i32>) -> u64
    decreases key.len(),
{
    if key.len() == 0 {
        0
    } else {
        mix(key_hash(key.drop_last()), key.last())
    }
}

/// Computes the hash of a key.
fn hash_key(key: &Vec<i32>) -> (hash: u64)
    ensures
        hash == key_hash(key@),
{
    let mut hash: u64 = 0;
    let mut i: usize = 0;
    while i < key.len()
        invariant
            i <= key.len(),
            hash == key_hash(key@.take(i as int)),
        decreases key.len() - i,
    {
        proof {
            assert(key@.take(i + 1).drop_last() =~= key@.take(i as int));
        }
        let shifted: i64 = key[i] as i64 + 0x8000_0000;
        let wide: u128 = hash as u128 * 0x100_0000_01b3 + shifted as u128;
        hash = (wide % 0x1_0000_0000_0000_0000) as u64;
        i = i + 1;
    }
    proof {
        assert(key@.take(key.len() as int) =~= key@);
    }
    hash
}

/// Per-clause statistics, by clause key.
///
/// The entries stand in the order in which their keys were first seen. An
/// index from the hash of a key to the places of the entries with that hash
/// finds an entry without looking through all of them. The index is keyed
/// by a number because a hash map keyed by the literals themselves is
/// one of which nothing can be proved: vstd describes std's hash map for
/// keys that are integers.
#[derive(Debug)]
pub struct ClauseMap {
    keys: Vec<Vec<i32>>,
    stats: Vec<ClauseStats>,
    index: HashMap<u64, Vec<usize>>,
}

impl View for ClauseMap {
    type V = Map<Seq<i32>, Summary>;

    open spec fn view(&self) -> Map<Seq<i32>, Summary> {
        map_of(self.entries())
    }
}

impl ClauseMap {
    /// The entries in the order in which their keys were first seen.
    pub closed spec fn entries(self) -> Seq<Entry> {
        Seq::new(self.keys.len() as nat, |i: int| (self.keys[i]@, self.stats[i]@))
    }

    /// The entry at place `i` is listed in the index under its key's hash.
    spec fn indexed(self, i: int) -> bool {
        let hash = key_hash(self.keys[i]@);
        self.index@.contains_key(hash) && self.index@[hash]@.contains(i as usize)
    }

    /// What the index lists under `hash` at `j` is the place of an entry
    /// whose key has that hash.
    spec fn points_home(self, hash: u64, j: int) -> bool {
        let place = self.index@[hash]@[j];
        place < self.keys.len() && key_hash(self.keys[place as int]@) == hash
    }

    /// Whether the parts of the map fit together.
    pub closed spec fn consistent(self) -> bool {
        &&& self.keys.len() == self.stats.len()
        &&& forall|i: int| 0 <= i < self.keys.len() ==> #[trigger] self.indexed(i)
        &&& forall|hash: u64, j: int|
            self.index@.contains_key(hash) && 0 <= j < self.index@[hash]@.len()
                ==> #[trigger] self.points_home(hash, j)
    }

    /// Every key has one entry, and every entry summarises at least one
    /// value.
    pub open spec fn wf(self) -> bool {
        &&& self.consistent()
        &&& distinct_keys(self.entries())
        &&& forall|i: int|
            0 <= i < self.entries().len() ==> (#[trigger] self.entries()[i]).1.count >= 1
                && self.entries()[i].1.in_range()
    }

    /// Whether a measurement for `key` can still be counted.
    pub open spec fn has_room(self, key: Seq<i32>) -> bool {
        has_key(self.entries(), key) ==> self.entries()[index_of_key(
            self.entries(),
            key,
        )].1.count < u32::MAX
    }

    /// A map without entries.
    pub fn new() -> (map: ClauseMap)
        ensures
            map.wf(),
            map.entries() == Seq::<Entry>::empty(),
            map@ == Map::<Seq<i32>, Summary>::empty(),
    {
        let map = ClauseMap { keys: Vec::new(), stats: Vec::new(), index: HashMap::new() };
        assert(map.entries() =~= Seq::<Entry>::empty());
        map
    }

    /// How many different keys were seen.
    pub fn len(&self) -> (n: usize)
        requires
            self.wf(),
        ensures
            n == self.entries().len(),
    {
        self.keys.len()
    }

    /// Where the entry of `key` stands, if there is one.
    fn find(&self, key: &Vec<i32>) -> (found: Option<usize>)
        requires
            self.wf(),
        ensures
            match found {
                Some(i) => i < self.entries().len() && self.entries()[i as int].0 == key@
                    && has_key(self.entries(), key@) && index_of_key(self.entries(), key@) == i,
                None => !has_key(self.entries(), key@),
            },
    {
        broadcast use group_hash_axioms;

        let hash: u64 = hash_key(key);
        match self.index.get(&hash) {
            None => {
                proof {
                    if has_key(self.entries(), key@) {
                        let i = index_of_key(self.entries(), key@);
                        assert(self.indexed(i));
                    }
                }
                None
            },
            Some(places) => {
                let mut j: usize = 0;
                while j < places.len()
                    invariant
                        j <= places.len(),
                        self.wf(),
                        self.index@.contains_key(hash),
                        self.index@[hash] == *places,
                        forall|k: int|
                            0 <= k < j ==> self.keys[(#[trigger] places@[k]) as int]@ != key@,
                    decreases places.len() - j,
                {
                    let i: usize = places[j];
                    assert(self.points_home(hash, j as int));
                    if same_key(&self.keys[i], key) {
                        assert(self.entries()[i as int].0 == key@);
                        return Some(i);
                    }
                    j = j + 1;
                }
                proof {
                    if has_key(self.entries(), key@) {
                        let i = index_of_key(self.entries(), key@);
                        assert(self.indexed(i));
                        let k = choose|k: int| 0 <= k < places@.len() && places@[k] == i as usize;
                        assert(self.keys[places@[k] as int]@ != key@);
                    }
                }
                None
            },
        }
    }

    /// The statistics of `key`, if it was seen.
    pub fn get(&self, key: &Vec<i32>) -> (stats: Option<ClauseStats>)
        requires
            self.wf(),
        ensures
            match stats {
                Some(s) => self@.dom().contains(key@) && s@ == self@[key@] && s.wf(),
                None => !self@.dom().contains(key@),
            },
    {
        proof {
            lemma_map_of_has_key(self.entries(), key@);
        }
        match self.find(key) {
            Some(i) => {
                proof {
                    lemma_map_of_entry(self.entries(), i as int);
                }
                Some(self.stats[i])
            },
            None => None,
        }
    }

    /// Whether a measurement for `key` can still be counted.
    pub fn has_room_for(&self, key: &Vec<i32>) -> (room: bool)
        requires
            self.wf(),
        ensures
            room == self.has_room(key@),
    {
        match self.find(key) {
            Some(i) => self.stats[i].has_room(),
            None => true,
        }
    }

    /// The report: a line for each informative entry.
    pub fn report(&self) -> (rows: Vec<ReportRow>)
        requires
            self.wf(),
        ensures
            rows_of(rows@) == report_of(self.entries()),
    {
        let mut rows: Vec<ReportRow> = Vec::new();
        let mut i: usize = 0;
        while i < self.keys.len()
            invariant
                i <= self.keys.len(),
                self.wf(),
                rows_of(rows@) == report_of(self.entries().take(i as int)),
            decreases self.keys.len() - i,
        {
            let stats = self.stats[i];
            proof {
                assert(self.entries().take(i + 1).drop_last() =~= self.entries().take(i as int));
                assert(self.entries()[i as int].1 == stats@);
                assert(stats.wf());
            }
            if stats.is_informative() {
                let row = ReportRow {
                    count: stats.final_count(),
                    mean: stats.final_mean(),
                    variance: stats.final_variance(),
                    clause_len: self.keys[i].len(),
                };
                proof {
                    assert(row@ == row_of(self.entries()[i as int]));
                    assert(rows_of(rows@.push(row)) =~= rows_of(rows@).push(row@));
                }
                rows.push(row);
            }
            i = i + 1;
        }
        proof {
            assert(self.entries().take(self.keys.len() as int) =~= self.entries());
        }
        rows
    }
}

impl ClauseMap {
    /// Replaces the statistics of the entry at place `i`.
    fn set_stats(&mut self, i: usize, stats: ClauseStats)
        requires
            old(self).wf(),
            i < old(self).entries().len(),
            stats.wf(),
        ensures
            final(self).wf(),
            final(self).entries() == old(self).entries().update(
                i as int,
                (old(self).entries()[i as int].0, stats@),
            ),
    {
        self.stats.set(i, stats);
        proof {
            assert(self.entries() =~= old(self).entries().update(
                i as int,
                (old(self).entries()[i as int].0, stats@),
            ));
            assert forall|k: int| 0 <= k < self.keys.len() implies #[trigger] self.indexed(k) by {
                assert(old(self).indexed(k));
            }
            assert forall|hash: u64, j: int|
                self.index@.contains_key(hash) && 0 <= j < self.index@[hash]@.len()
                implies #[trigger] self.points_home(hash, j) by {
                assert(old(self).points_home(hash, j));
            }
            assert forall|a: int, b: int|
                0 <= a < self.entries().len() && 0 <= b < self.entries().len() && a != b implies (
            #[trigger] self.entries()[a]).0 != (#[trigger] self.entries()[b]).0 by {
                assert(old(self).entries()[a].0 != old(self).entries()[b].0);
            }
            assert forall|k: int| 0 <= k < self.entries().len() implies (
            #[trigger] self.entries()[k]).1.count >= 1 && self.entries()[k].1.in_range() by {
                if k != i {
                    assert(old(self).entries()[k].1.count >= 1);
                }
            }
        }
    }

    /// Adds an entry for a key that has none.
    fn add_entry(&mut self, key: Vec<i32>, stats: ClauseStats)
        requires
            old(self).wf(),
            !has_key(old(self).entries(), key@),
            stats.wf(),
        ensures
            final(self).wf(),
            final(self).entries() == old(self).entries().push((key@, stats@)),
    {
        broadcast use group_hash_axioms;

        let hash: u64 = hash_key(&key);
        let place: usize = self.keys.len();
        let ghost key_view = key@;
        let mut places: Vec<usize> = match self.index.remove(&hash) {
            Some(places) => places,
            None => Vec::new(),
        };
        let ghost listed = places@;
        places.push(place);
        self.index.insert(hash, places);
        self.keys.push(key);
        self.stats.push(stats);
        proof {
            let before = old(self).entries();
            assert(self.entries() =~= before.push((key_view, stats@)));
            assert(old(self).index@.contains_key(hash) ==> old(self).index@[hash]@ == listed);
            assert(!old(self).index@.contains_key(hash) ==> listed.len() == 0);
            assert(self.index@ =~= old(self).index@.insert(hash, places));
            assert(places@ == listed.push(place));
            assert forall|k: int| 0 <= k < self.keys.len() implies #[trigger] self.indexed(k) by {
                if k < place {
                    assert(old(self).indexed(k));
                    let h = key_hash(old(self).keys[k]@);
                    if h == hash {
                        let at = choose|at: int| 0 <= at < listed.len() && listed[at] == k as usize;
                        assert(places@[at] == k as usize);
                    }
                } else {
                    assert(places@[listed.len() as int] == place);
                }
            }
            assert forall|h: u64, j: int|
                self.index@.contains_key(h) && 0 <= j < self.index@[h]@.len()
                implies #[trigger] self.points_home(h, j) by {
                if h == hash {
                    if j < listed.len() {
                        assert(old(self).points_home(h, j));
                    }
                } else {
                    assert(old(self).points_home(h, j));
                }
            }
            assert forall|a: int, b: int|
                0 <= a < self.entries().len() && 0 <= b < self.entries().len() && a != b implies (
            #[trigger] self.entries()[a]).0 != (#[trigger] self.entries()[b]).0 by {
                if a < before.len() && b < before.len() {
                    assert(before[a].0 != before[b].0);
                } else if a < before.len() {
                    assert(before[a].0 != key_view);
                } else {
                    assert(before[b].0 != key_view);
                }
            }
            assert forall|k: int| 0 <= k < self.entries().len() implies (
            #[trigger] self.entries()[k]).1.count >= 1 && self.entries()[k].1.in_range() by {
                if k < before.len() {
                    assert(before[k].1.count >= 1);
                }
            }
        }
    }
}

/// Takes one measurement into the aggregate.
pub fn update_data_map(aggregate: &mut ClauseMap, new_data: &ClauseData)
    requires
        old(aggregate).wf(),
        old(aggregate).has_room(new_data@.key),
    ensures
        final(aggregate).wf(),
        final(aggregate).entries() == absorb_entry(old(aggregate).entries(), new_data@),
        final(aggregate)@ == absorb(old(aggregate)@, new_data@),
{
    proof {
        lemma_absorb_entry_is_absorb(aggregate.entries(), new_data@);
    }
    match aggregate.find(&new_data.literals) {
        Some(i) => {
            let mut stats = aggregate.stats[i];
            assert(stats@ == aggregate.entries()[i as int].1);
            stats.update(new_data.lbd);
            aggregate.set_stats(i, stats);
        },
        None => {
            let key = new_data.literals.clone();
            aggregate.add_entry(key, ClauseStats::new(new_data.lbd));
        },
    }
}

/// Aggregates a whole series of measurements, from nothing. This can be
/// done for as many measurements as a 32-bit count can hold; for more,
/// there is no result.
pub fn aggregate_records(records: &[ClauseData]) -> (result: Option<ClauseMap>)
    ensures
        records@.len() > u32::MAX <==> result is None,
        result matches Some(map) ==> {
            &&& map.wf()
            &&& map.entries() == aggregate_entries(records_of(records@))
            &&& map@ == aggregate(records_of(records@))
        },
{
    if records.len() > u32::MAX as usize {
        return None;
    }
    let mut map = ClauseMap::new();
    let mut i: usize = 0;
    assert(records_of(records@.take(0)) =~= Seq::<Record>::empty());
    while i < records.len()
        invariant
            i <= records.len() <= u32::MAX,
            map.wf(),
            map.entries() == aggregate_entries(records_of(records@.take(i as int))),
        decreases records.len() - i,
    {
        proof {
            let before = records_of(records@.take(i as int));
            assert(records_of(records@.take(i + 1)) =~= before.push(records@[i as int]@));
            assert(before.push(records@[i as int]@).drop_last() =~= before);
            let key = records@[i as int]@.key;
            if has_key(map.entries(), key) {
                lemma_counts_within_length(before, index_of_key(map.entries(), key));
            }
        }
        update_data_map(&mut map, &records[i]);
        i = i + 1;
    }
    proof {
        assert(records@.take(records.len() as int) =~= records@);
        lemma_aggregate_entries_is_aggregate(records_of(records@));
    }
    Some(map)
}

/// No summary counts more values than there were measurements.
pub proof fn lemma_counts_within_length(records: Seq<Record>, i: int)
    requires
        0 <= i < aggregate_entries(records).len(),
    ensures
        1 <= aggregate_entries(records)[i].1.count <= records.len(),
        aggregate_entries(records).len() <= records.len(),
    decreases records.len(),
{
    if records.len() > 0 {
        let before = aggregate_entries(records.drop_last());
        let record = records.last();
        if has_key(before, record.key) {
            lemma_counts_within_length(records.drop_last(), i);
            lemma_counts_within_length(
                records.drop_last(),
                index_of_key(before, record.key),
            );
        } else if i < before.len() {
            lemma_counts_within_length(records.drop_last(), i);
        } else if before.len() > 0 {
            lemma_counts_within_length(records.drop_last(), 0);
        }
    }
}

/// Two series of the same measurements, in whatever order, aggregate to
/// the same map when each is taken in from nothing.
pub proof fn lemma_batches_agree(first: ClauseMap, second: ClauseMap, a: Seq<Record>, b: Seq<Record>)
    requires
        first@ == aggregate(a),
        second@ == aggregate(b),
        a.to_multiset() == b.to_multiset(),
    ensures
        first@ == second@,
{
    lemma_aggregate_order_independent(a, b);
}

/// A key is in the map of a series of entries where one of them has it.
pub proof fn lemma_map_of_has_key(entries: Seq<Entry>, key: Seq<i32>)
    ensures
        map_of(entries).dom().contains(key) <==> has_key(entries, key),
    decreases entries.len(),
{
    if entries.len() > 0 {
        let head = entries.drop_last();
        lemma_map_of_has_key(head, key);
        if has_key(head, key) {
            let i = index_of_key(head, key);
            assert(entries[i].0 == key);
        }
        if entries.last().0 == key {
            assert(entries[entries.len() - 1].0 == key);
        }
        if has_key(entries, key) {
            let i = index_of_key(entries, key);
            if i < head.len() {
                assert(head[i].0 == key);
            }
        }
    }
}

/// Entries without the last still have their keys apart.
proof fn lemma_distinct_keys_drop_last(entries: Seq<Entry>)
    requires
        distinct_keys(entries),
        entries.len() > 0,
    ensures
        distinct_keys(entries.drop_last()),
{
    let head = entries.drop_last();
    assert forall|i: int, j: int|
        0 <= i < head.len() && 0 <= j < head.len() && i != j implies (#[trigger] head[i]).0 != (
    #[trigger] head[j]).0 by {
        assert(entries[i].0 != entries[j].0);
    }
}

/// Where no key has two entries, the map holds under each entry's key that
/// entry's summary.
pub proof fn lemma_map_of_entry(entries: Seq<Entry>, i: int)
    requires
        distinct_keys(entries),
        0 <= i < entries.len(),
    ensures
        map_of(entries).dom().contains(entries[i].0),
        map_of(entries)[entries[i].0] == entries[i].1,
    decreases entries.len(),
{
    let head = entries.drop_last();
    if i < head.len() {
        lemma_distinct_keys_drop_last(entries);
        lemma_map_of_entry(head, i);
        assert(head[i] == entries[i]);
        assert(entries[i].0 != entries[entries.len() - 1].0);
    }
}

/// Taking a measurement into the entries is taking it into their map, and
/// keeps the keys apart.
pub proof fn lemma_absorb_entry_is_absorb(entries: Seq<Entry>, record: Record)
    requires
        distinct_keys(entries),
    ensures
        distinct_keys(absorb_entry(entries, record)),
        map_of(absorb_entry(entries, record)) == absorb(map_of(entries), record),
{
    let after = absorb_entry(entries, record);
    let wanted = absorb(map_of(entries), record);
    lemma_map_of_has_key(entries, record.key);
    if has_key(entries, record.key) {
        let i = index_of_key(entries, record.key);
        assert forall|a: int, b: int|
            0 <= a < after.len() && 0 <= b < after.len() && a != b implies (#[trigger] after[a]).0
            != (#[trigger] after[b]).0 by {
            assert(entries[a].0 != entries[b].0);
        }
        lemma_map_of_entry(entries, i);
        assert forall|key: Seq<i32>| map_of(after).dom().contains(key) <==> wanted.dom().contains(
            key,
        ) by {
            lemma_map_of_has_key(after, key);
            lemma_map_of_has_key(entries, key);
            if has_key(after, key) {
                let a = index_of_key(after, key);
                assert(entries[a].0 == key);
            }
            if has_key(entries, key) {
                let a = index_of_key(entries, key);
                assert(after[a].0 == key);
            }
        }
        assert forall|key: Seq<i32>| map_of(after).dom().contains(key) implies map_of(after)[key]
            == wanted[key] by {
            lemma_map_of_has_key(after, key);
            let a = index_of_key(after, key);
            assert(after[a].0 == key);
            lemma_map_of_entry(after, a);
            if a != i {
                assert(after[a].0 != after[i].0);
                assert(entries[a].0 == key);
                lemma_map_of_entry(entries, a);
            }
        }
        assert(map_of(after) =~= wanted);
    } else {
        assert(after.drop_last() =~= entries);
        assert forall|a: int, b: int|
            0 <= a < after.len() && 0 <= b < after.len() && a != b implies (#[trigger] after[a]).0
            != (#[trigger] after[b]).0 by {
            if a < entries.len() && b < entries.len() {
                assert(entries[a].0 != entries[b].0);
            } else if a < entries.len() {
                assert(entries[a].0 != record.key);
            } else {
                assert(entries[b].0 != record.key);
            }
        }
    }
}

/// The entries after a series of measurements have one entry for each key,
/// and their map is the aggregate of the measurements.
pub proof fn lemma_aggregate_entries_is_aggregate(records: Seq<Record>)
    ensures
        distinct_keys(aggregate_entries(records)),
        map_of(aggregate_entries(records)) == aggregate(records),
    decreases records.len(),
{
    if records.len() > 0 {
        lemma_aggregate_entries_is_aggregate(records.drop_last());
        lemma_absorb_entry_is_absorb(aggregate_entries(records.drop_last()), records.last());
    }
}

/// Taking in a measurement, as a function, for folding.
pub open spec fn absorb_step() -> spec_fn(Map<Seq<i32>, Summary>, Record) -> Map<
    Seq<i32>,
    Summary,
> {
    |map: Map<Seq<i32>, Summary>, record: Record| absorb(map, record)
}

/// The aggregate of a series of measurements is the fold of the
/// measurements from the empty map.
pub proof fn lemma_aggregate_is_fold(records: Seq<Record>)
    ensures
        aggregate(records) == records.fold_left(Map::empty(), absorb_step()),
    decreases records.len(),
{
    if records.len() > 0 {
        lemma_aggregate_is_fold(records.drop_last());
    }
}

/// Two measurements can be taken in in either order.
pub proof fn lemma_absorb_commutes(map: Map<Seq<i32>, Summary>, x: Record, y: Record)
    ensures
        absorb(absorb(map, x), y) == absorb(absorb(map, y), x),
{
    assert(absorb(absorb(map, x), y) =~= absorb(absorb(map, y), x));
}

/// The aggregate does not depend on the order in which the measurements
/// arrive. Two series with the same measurements, each as often in one as
/// in the other, have the same aggregate; so however the streams of several
/// connections are interleaved on their way to the aggregator, the result
/// is the same map.
pub proof fn lemma_aggregate_order_independent(a: Seq<Record>, b: Seq<Record>)
    requires
        a.to_multiset() == b.to_multiset(),
    ensures
        aggregate(a) == aggregate(b),
{
    lemma_aggregate_is_fold(a);
    lemma_aggregate_is_fold(b);
    assert(commutative_foldl(absorb_step())) by {
        assert forall|x: Record, y: Record, v: Map<Seq<i32>, Summary>| #[trigger]
            absorb_step()(absorb_step()(v, x), y) == absorb_step()(absorb_step()(v, y), x) by {
            lemma_absorb_commutes(v, x, y);
        }
    }
    lemma_fold_left_permutation(a, b, absorb_step(), Map::empty());
}

/// Nothing reported, nothing to report.
pub proof fn lemma_empty_report()
    ensures
        aggregate_entries(Seq::empty()) == Seq::<Entry>::empty(),
        aggregate(Seq::empty()) == Map::<Seq<i32>, Summary>::empty(),
        report_of(Seq::empty()) == Seq::<Row>::empty(),
{
}

/// Whether `merged` holds the measurements of `a` and of `b`, each series in
/// its own order, woven together in some way.
pub open spec fn interleaves(merged: Seq<Record>, a: Seq<Record>, b: Seq<Record>) -> bool
    decreases merged.len(),
{
    if merged.len() == 0 {
        a.len() == 0 && b.len() == 0
    } else {
        ||| a.len() > 0 && a.last() == merged.last() && interleaves(
            merged.drop_last(),
            a.drop_last(),
            b,
        )
        ||| b.len() > 0 && b.last() == merged.last() && interleaves(
            merged.drop_last(),
            a,
            b.drop_last(),
        )
    }
}

/// Two series woven together hold the measurements of both, each as often
/// as the two together.
pub proof fn lemma_interleaving_keeps_records(merged: Seq<Record>, a: Seq<Record>, b: Seq<Record>)
    requires
        interleaves(merged, a, b),
    ensures
        merged.len() == a.len() + b.len(),
        merged.to_multiset() == a.to_multiset().add(b.to_multiset()),
    decreases merged.len(),
{
    broadcast use group_to_multiset_ensures;

    if merged.len() == 0 {
        assert(merged.to_multiset() =~= a.to_multiset().add(b.to_multiset()));
    } else {
        let x = merged.last();
        assert(merged.drop_last().push(x) =~= merged);
        if a.len() > 0 && a.last() == x && interleaves(merged.drop_last(), a.drop_last(), b) {
            lemma_interleaving_keeps_records(merged.drop_last(), a.drop_last(), b);
            assert(a.drop_last().push(x) =~= a);
            assert(merged.to_multiset() =~= a.to_multiset().add(b.to_multiset()));
        } else {
            lemma_interleaving_keeps_records(merged.drop_last(), a, b.drop_last());
            assert(b.drop_last().push(x) =~= b);
            assert(merged.to_multiset() =~= a.to_multiset().add(b.to_multiset()));
        }
    }
}

/// However the measurements of two connections are woven together on their
/// way to the aggregator, the aggregate is the same.
pub proof fn lemma_interleavings_agree(
    first: Seq<Record>,
    second: Seq<Record>,
    a: Seq<Record>,
    b: Seq<Record>,
)
    requires
        interleaves(first, a, b),
        interleaves(second, a, b),
    ensures
        aggregate(first) == aggregate(second),
{
    lemma_interleaving_keeps_records(first, a, b);
    lemma_interleaving_keeps_records(second, a, b);
    lemma_aggregate_order_independent(first, second);
}

} // verus!
