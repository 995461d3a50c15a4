//! Occurrence counts of records, kept in a hash map.

use vstd::prelude::*;
use vstd::multiset::Multiset;
use hashbrown::HashMap;
use rayon::iter::IntoParallelRefIterator;
use rayon::iter::ParallelIterator;
use crate::records::records_of;
use crate::records::lemma_records_len;
use crate::records::lemma_records_of_concat;
use crate::records::LINE_FEED;
use crate::records::RecordReader;

verus! {

/// A `hashbrown::HashMap` from records to counts. Verus does not look inside
/// it: what it holds is `contents`, and every access goes through one of the
/// functions below, whose contracts are taken on trust.
#[verifier::external_body]
pub struct CountMap {
    inner: HashMap<Vec<u8>, u64>,
}

/// What a `CountMap` holds: the bytes of each key, with the value stored under it.
pub uninterp spec fn contents(map: CountMap) -> Map<Seq<u8>, u64>;

/// `HashMap::default`: a map that holds nothing.
#[verifier::external_body]
fn empty_map() -> (map: CountMap)
    ensures
        contents(map) =~= Map::empty(),
{
    CountMap { inner: HashMap::default() }
}

/// `HashMap::get_mut`: the place of the value stored under `key`, if the map
/// holds the key. Nothing but that value changes, and it changes to whatever
/// the caller writes there.
#[verifier::external_body]
fn slot<'a>(map: &'a mut CountMap, key: &[u8]) -> (found: Option<&'a mut u64>)
    ensures
        found is Some <==> contents(*old(map)).contains_key(key@),
        found matches Some(value) ==> *value == contents(*old(map))[key@]
            && contents(*final(map)) == contents(*old(map)).insert(key@, *final(value)),
        found is None ==> contents(*final(map)) == contents(*old(map)),
{
    map.inner.get_mut(key)
}

/// `HashMap::insert`: afterwards `value` is stored under `key`, and every
/// other key is as it was.
#[verifier::external_body]
fn put(map: &mut CountMap, key: &[u8], value: u64)
    ensures
        contents(*final(map)) == contents(*old(map)).insert(key@, value),
{
    map.inner.insert(key.to_vec(), value);
}

/// `par_iter` on a `HashMap`, collected into a `Vec`: every key of the map
/// once, each with its value, in an order that is not fixed.
#[verifier::external_body]
fn pairs<'a>(map: &'a CountMap) -> (out: Vec<(&'a Vec<u8>, &'a u64)>)
    ensures
        lists(entries_of(out@), contents(*map)),
{
    map.inner.par_iter().collect()
}

/// What an entry borrowed from a table stands for: a record's bytes and its count.
pub open spec fn entry_of(entry: (&Vec<u8>, &u64)) -> (Seq<u8>, u64) {
    (entry.0@, *entry.1)
}

/// The records and counts that a sequence of borrowed entries stands for.
pub open spec fn entries_of(entries: Seq<(&Vec<u8>, &u64)>) -> Seq<(Seq<u8>, u64)> {
    entries.map_values(|entry: (&Vec<u8>, &u64)| entry_of(entry))
}

/// `entries` lists `table`: each key of the table stands in exactly one
/// entry, beside its count, and there is no other entry.
pub open spec fn lists(entries: Seq<(Seq<u8>, u64)>, table: Map<Seq<u8>, u64>) -> bool {
    &&& forall|i: int|
        0 <= i < entries.len() ==> table.contains_pair((#[trigger] entries[i]).0, entries[i].1)
    &&& forall|i: int, j: int|
        0 <= i < j < entries.len() ==> (#[trigger] entries[i]).0 != (#[trigger] entries[j]).0
    &&& forall|record: Seq<u8>| #[trigger]
        table.contains_key(record) ==> exists|i: int|
            0 <= i < entries.len() && (#[trigger] entries[i]).0 == record
}

/// A count of `n` occurrences as the table stores it: counts stop at `u64::MAX`.
pub open spec fn stored_count(n: nat) -> u64 {
    if n >= u64::MAX {
        u64::MAX
    } else {
        n as u64
    }
}

/// The table that counting `records` one by one leads to.
pub open spec fn counts_of(records: Seq<Seq<u8>>) -> Map<Seq<u8>, u64> {
    Map::new(
        |record: Seq<u8>| records.contains(record),
        |record: Seq<u8>| stored_count(records.to_multiset().count(record)),
    )
}

/// The count that stands under `record` once it has been counted one more time.
pub open spec fn next_count(table: Map<Seq<u8>, u64>, record: Seq<u8>) -> u64 {
    if !table.contains_key(record) {
        1
    } else if table[record] < u64::MAX {
        (table[record] + 1) as u64
    } else {
        u64::MAX
    }
}

/// The table that `table` becomes once `records` have been counted into it
/// one by one.
pub open spec fn counted(table: Map<Seq<u8>, u64>, records: Seq<Seq<u8>>) -> Map<Seq<u8>, u64>
    decreases records.len(),
{
    if records.len() == 0 {
        table
    } else {
        let before = counted(table, records.drop_last());
        before.insert(records.last(), next_count(before, records.last()))
    }
}

/// The records of a table, each as often as its count says.
pub open spec fn tally_of(table: Map<Seq<u8>, u64>) -> Multiset<Seq<u8>> {
    Multiset::from_map(
        Map::new(|record: Seq<u8>| table.contains_key(record), |record: Seq<u8>| table[record] as nat),
    )
}

/// Counting one more record changes its count and nothing else.
pub proof fn lemma_counts_of_push(records: Seq<Seq<u8>>, record: Seq<u8>)
    ensures
        counts_of(records.push(record)) == counts_of(records).insert(
            record,
            next_count(counts_of(records), record),
        ),
{
    broadcast use vstd::seq_lib::group_to_multiset_ensures;
    let before = counts_of(records);
    let after = counts_of(records.push(record));
    let expected = before.insert(record, next_count(before, record));
    assert forall|k: Seq<u8>| after.contains_key(k) <==> expected.contains_key(k) by {
        if records.push(record).contains(k) {
            let i = choose|i: int| 0 <= i < records.push(record).len() && records.push(record)[i] == k;
            if i < records.len() {
                assert(records[i] == k);
            }
        }
        if records.contains(k) {
            let i = choose|i: int| 0 <= i < records.len() && records[i] == k;
            assert(records.push(record)[i] == k);
        }
        assert(records.push(record)[records.len() as int] == record);
    }
    assert forall|k: Seq<u8>| after.contains_key(k) implies after[k] == expected[k] by {
        assert(records.push(record).to_multiset() =~= records.to_multiset().insert(record));
        if k == record && !records.contains(record) {
            assert(records.to_multiset().count(record) == 0);
        }
    }
    assert(after =~= expected);
}

/// Counting records into an empty table one by one leads to their counts.
pub proof fn lemma_counted_from_nothing(records: Seq<Seq<u8>>)
    ensures
        counted(Map::empty(), records) == counts_of(records),
    decreases records.len(),
{
    if records.len() == 0 {
        assert(counts_of(records) =~= Map::empty());
    } else {
        lemma_counted_from_nothing(records.drop_last());
        lemma_counts_of_push(records.drop_last(), records.last());
        assert(records.drop_last().push(records.last()) =~= records);
    }
}

/// Counting some records and then some more is counting them all in turn.
pub proof fn lemma_counted_concat(
    table: Map<Seq<u8>, u64>,
    first: Seq<Seq<u8>>,
    second: Seq<Seq<u8>>,
)
    ensures
        counted(counted(table, first), second) == counted(table, first + second),
    decreases second.len(),
{
    if second.len() == 0 {
        assert(first + second =~= first);
    } else {
        lemma_counted_concat(table, first, second.drop_last());
        assert((first + second).drop_last() =~= first + second.drop_last());
        assert((first + second).last() == second.last());
    }
}

/// A stream can be counted in pieces. Where a stream is cut behind a line
/// feed, counting the records of the first piece and then those of the
/// second leads to the table that counting the records of the whole stream
/// leads to.
pub proof fn lemma_counted_in_pieces(table: Map<Seq<u8>, u64>, head: Seq<u8>, tail: Seq<u8>)
    requires
        head.len() == 0 || head.last() == LINE_FEED,
    ensures
        counted(counted(table, records_of(head)), records_of(tail)) == counted(
            table,
            records_of(head + tail),
        ),
{
    lemma_records_of_concat(head, tail);
    lemma_counted_concat(table, records_of(head), records_of(tail));
}

/// Where the counts did not stop at `u64::MAX`, the table holds each record
/// as often as it was counted.
pub proof fn lemma_tally_of_counts(records: Seq<Seq<u8>>)
    requires
        records.len() <= u64::MAX,
    ensures
        counts_of(records).dom().finite(),
        tally_of(counts_of(records)) == records.to_multiset(),
        tally_of(counts_of(records)).len() == records.len(),
{
    broadcast use vstd::seq_lib::group_to_multiset_ensures;
    broadcast use vstd::multiset::group_multiset_axioms;
    let table = counts_of(records);
    let weights = Map::new(
        |record: Seq<u8>| table.contains_key(record),
        |record: Seq<u8>| table[record] as nat,
    );
    vstd::seq_lib::seq_to_set_is_finite(records);
    assert(table.dom() =~= records.to_set());
    assert(weights.dom() =~= records.to_set());
    assert forall|k: Seq<u8>| tally_of(table).count(k) == records.to_multiset().count(k) by {
        assert(records.to_multiset().count(k) <= records.to_multiset().len());
        if !records.contains(k) {
            assert(!weights.dom().contains(k));
        } else {
            assert(weights.dom().contains(k));
        }
    }
    assert(tally_of(table) =~= records.to_multiset());
}

/// The sum of the counts of `entries`.
pub open spec fn total_of(entries: Seq<(Seq<u8>, u64)>) -> nat
    decreases entries.len(),
{
    if entries.len() == 0 {
        0
    } else {
        total_of(entries.drop_last()) + entries.last().1 as nat
    }
}

/// The multiset that holds `record` `n` times and nothing else.
spec fn copies(record: Seq<u8>, n: nat) -> Multiset<Seq<u8>>
    decreases n,
{
    if n == 0 {
        Multiset::empty()
    } else {
        copies(record, (n - 1) as nat).insert(record)
    }
}

proof fn lemma_copies(record: Seq<u8>, n: nat)
    ensures
        copies(record, n).len() == n,
        copies(record, n).count(record) == n,
        forall|other: Seq<u8>| other != record ==> #[trigger] copies(record, n).count(other) == 0,
    decreases n,
{
    broadcast use vstd::multiset::group_multiset_axioms;

    if n > 0 {
        lemma_copies(record, (n - 1) as nat);
    }
}

/// The counts of a listing add up to the size of the tally of its table,
/// and a table that can be listed holds finitely many records.
pub proof fn lemma_total_of_listing(listing: Seq<(Seq<u8>, u64)>, table: Map<Seq<u8>, u64>)
    requires
        lists(listing, table),
    ensures
        table.dom().finite(),
        total_of(listing) == tally_of(table).len(),
    decreases listing.len(),
{
    broadcast use vstd::multiset::group_multiset_axioms;

    let weights = Map::new(
        |record: Seq<u8>| table.contains_key(record),
        |record: Seq<u8>| table[record] as nat,
    );
    assert(weights.dom() =~= table.dom());
    if listing.len() == 0 {
        assert(table.dom() =~= Set::empty());
        assert(tally_of(table) =~= Multiset::empty());
    } else {
        let front = listing.drop_last();
        let last = listing.last();
        let smaller = table.remove(last.0);
        let smaller_weights = Map::new(
            |record: Seq<u8>| smaller.contains_key(record),
            |record: Seq<u8>| smaller[record] as nat,
        );
        assert(table.contains_pair(last.0, last.1));
        assert(lists(front, smaller)) by {
            assert forall|i: int| 0 <= i < front.len() implies smaller.contains_pair(
                (#[trigger] front[i]).0,
                front[i].1,
            ) by {
                assert(front[i] == listing[i]);
                assert(listing[i].0 != listing[listing.len() - 1].0);
                assert(table.contains_pair(listing[i].0, listing[i].1));
            }
            assert forall|i: int, j: int| 0 <= i < j < front.len() implies (#[trigger] front[i]).0
                != (#[trigger] front[j]).0 by {
                assert(front[i] == listing[i]);
                assert(front[j] == listing[j]);
            }
            assert forall|record: Seq<u8>| #[trigger] smaller.contains_key(record) implies exists|
                i: int,
            |
                0 <= i < front.len() && (#[trigger] front[i]).0 == record by {
                assert(table.contains_key(record));
                let i = choose|i: int| 0 <= i < listing.len() && (#[trigger] listing[i]).0 == record;
                assert(front[i] == listing[i]);
            }
        }
        lemma_total_of_listing(front, smaller);
        assert(smaller_weights.dom() =~= smaller.dom());
        assert(table.dom() =~= smaller.dom().insert(last.0));
        lemma_copies(last.0, last.1 as nat);
        assert forall|record: Seq<u8>|
            tally_of(table).count(record) == tally_of(smaller).add(
                copies(last.0, last.1 as nat),
            ).count(record) by {
            if record == last.0 {
                assert(weights.dom().contains(record));
                assert(!smaller_weights.dom().contains(record));
            } else if table.contains_key(record) {
                assert(weights.dom().contains(record));
                assert(smaller_weights.dom().contains(record));
            } else {
                assert(!weights.dom().contains(record));
                assert(!smaller_weights.dom().contains(record));
            }
        }
        assert(tally_of(table) =~= tally_of(smaller).add(copies(last.0, last.1 as nat)));
    }
}

/// The counts add up to the number of records. Where the counts did not
/// stop at `u64::MAX`, the counts in any listing of the table counted from
/// `records` sum to the number of `records`.
pub proof fn lemma_counts_add_up(records: Seq<Seq<u8>>, listing: Seq<(Seq<u8>, u64)>)
    requires
        records.len() <= u64::MAX,
        lists(listing, counts_of(records)),
    ensures
        total_of(listing) == records.len(),
{
    lemma_tally_of_counts(records);
    lemma_total_of_listing(listing, counts_of(records));
}

/// Whether `record` stands in exactly one entry of `listing`.
pub open spec fn stands_once(listing: Seq<(Seq<u8>, u64)>, record: Seq<u8>) -> bool {
    exists|i: int|
        {
            &&& 0 <= i < listing.len()
            &&& (#[trigger] listing[i]).0 == record
            &&& forall|j: int|
                0 <= j < listing.len() && (#[trigger] listing[j]).0 == record ==> j == i
        }
}

/// Every record is one key. In a listing of the table counted from
/// `records` each of the records stands in exactly one entry, and no entry
/// holds anything but one of the records.
pub proof fn lemma_one_entry_per_record(records: Seq<Seq<u8>>, listing: Seq<(Seq<u8>, u64)>)
    requires
        lists(listing, counts_of(records)),
    ensures
        forall|k: int| 0 <= k < records.len() ==> stands_once(listing, #[trigger] records[k]),
        forall|i: int| 0 <= i < listing.len() ==> records.contains((#[trigger] listing[i]).0),
{
    let table = counts_of(records);
    assert forall|k: int| 0 <= k < records.len() implies stands_once(
        listing,
        #[trigger] records[k],
    ) by {
        assert(records.contains(records[k]));
        assert(table.contains_key(records[k]));
        let i = choose|i: int| 0 <= i < listing.len() && (#[trigger] listing[i]).0 == records[k];
        assert forall|j: int|
            0 <= j < listing.len() && (#[trigger] listing[j]).0 == records[k] implies j == i by {
            if j < i {
                assert(listing[j].0 != listing[i].0);
            } else if i < j {
                assert(listing[i].0 != listing[j].0);
            }
        }
    }
    assert forall|i: int| 0 <= i < listing.len() implies records.contains(
        (#[trigger] listing[i]).0,
    ) by {
        assert(table.contains_pair(listing[i].0, listing[i].1));
    }
}

/// Two listings of one table hold the same entries, whatever their order.
pub proof fn lemma_listings_agree(
    first: Seq<(Seq<u8>, u64)>,
    second: Seq<(Seq<u8>, u64)>,
    table: Map<Seq<u8>, u64>,
)
    requires
        lists(first, table),
        lists(second, table),
    ensures
        first.to_multiset() == second.to_multiset(),
{
    lemma_listing_counts(first, table);
    lemma_listing_counts(second, table);
    assert(first.to_multiset() =~= second.to_multiset());
}

/// A listing holds each entry of its table once, and nothing else.
proof fn lemma_listing_counts(listing: Seq<(Seq<u8>, u64)>, table: Map<Seq<u8>, u64>)
    requires
        lists(listing, table),
    ensures
        forall|entry: (Seq<u8>, u64)| #[trigger]
            listing.to_multiset().count(entry) == if table.contains_pair(entry.0, entry.1) {
                1nat
            } else {
                0nat
            },
{
    listing.to_multiset_ensures();
    assert(listing.no_duplicates()) by {
        assert forall|i: int, j: int|
            0 <= i < listing.len() && 0 <= j < listing.len() && i != j implies listing[i]
            != listing[j] by {
            if i < j {
                assert(listing[i].0 != listing[j].0);
            } else {
                assert(listing[j].0 != listing[i].0);
            }
        }
    }
    listing.lemma_multiset_has_no_duplicates();
    assert forall|entry: (Seq<u8>, u64)| #[trigger]
        listing.to_multiset().count(entry) == if table.contains_pair(entry.0, entry.1) {
            1nat
        } else {
            0nat
        } by {
        if table.contains_pair(entry.0, entry.1) {
            let i = choose|i: int| 0 <= i < listing.len() && (#[trigger] listing[i]).0 == entry.0;
            assert(table.contains_pair(listing[i].0, listing[i].1));
            assert(listing[i] == entry);
            assert(listing.contains(entry));
        } else if listing.contains(entry) {
            let i = choose|i: int| 0 <= i < listing.len() && listing[i] == entry;
            assert(table.contains_pair(listing[i].0, listing[i].1));
        }
    }
}

/// How often each distinct record has been seen.
pub struct FrequencyTable {
    map: CountMap,
}

impl View for FrequencyTable {
    type V = Map<Seq<u8>, u64>;

    /// The count of each record that the table holds.
    closed spec fn view(&self) -> Map<Seq<u8>, u64> {
        contents(self.map)
    }
}

impl FrequencyTable {
    /// Whether counting can have led to this table: it holds finitely many
    /// records, and none of them with a count of zero.
    pub open spec fn wf(&self) -> bool {
        &&& self@.dom().finite()
        &&& forall|record: Seq<u8>| #[trigger] self@.contains_key(record) ==> self@[record] >= 1
    }

    /// The records counted, each as often as its count says.
    pub open spec fn tally(&self) -> Multiset<Seq<u8>> {
        tally_of(self@)
    }

    /// A table that holds no record.
    pub fn new() -> (table: Self)
        ensures
            table@ =~= Map::empty(),
            table.wf(),
    {
        FrequencyTable { map: empty_map() }
    }

    /// Counts `record` once more. A count that has reached `u64::MAX` stays there.
    pub fn add(&mut self, record: &[u8])
        ensures
            final(self)@ == old(self)@.insert(record@, next_count(old(self)@, record@)),
            old(self).wf() ==> final(self).wf(),
    {
        match slot(&mut self.map, record) {
            Some(count) => {
                if *count < u64::MAX {
                    *count = *count + 1;
                }
                assert(old(self)@.insert(record@, old(self)@[record@]) =~= old(self)@);
            },
            None => {
                put(&mut self.map, record, 1);
            },
        }
    }

    /// Counts every record of `input`, in the order in which they stand in it.
    pub fn add_records(&mut self, input: &[u8])
        ensures
            final(self)@ == counted(old(self)@, records_of(input@)),
            old(self).wf() ==> final(self).wf(),
    {
        let mut reader = RecordReader::new(input);
        let ghost done: Seq<Seq<u8>> = Seq::empty();
        loop
            invariant
                done + reader.remaining() == records_of(input@),
                self@ == counted(old(self)@, done),
                old(self).wf() ==> self.wf(),
            ensures
                self@ == counted(old(self)@, records_of(input@)),
                old(self).wf() ==> self.wf(),
            decreases reader.remaining().len(),
        {
            let ghost before = reader.remaining();
            match reader.next_record() {
                Some(record) => {
                    self.add(record);
                    proof {
                        assert(done.push(record@).drop_last() =~= done);
                        assert(done.push(record@) + before.drop_first() =~= done + before);
                        done = done.push(record@);
                    }
                },
                None => {
                    proof {
                        assert(done + before =~= done);
                    }
                    break ;
                },
            }
        }
    }

    /// The entries of the table, each record once with its count, in an
    /// order that may differ from call to call.
    pub fn entries(&self) -> (out: Vec<(&Vec<u8>, &u64)>)
        ensures
            lists(entries_of(out@), self@),
            self.wf() ==> forall|i: int| 0 <= i < out@.len() ==> *(#[trigger] out@[i]).1 >= 1,
    {
        let out = pairs(&self.map);
        assert forall|i: int| self.wf() && 0 <= i < out@.len() implies *(#[trigger] out@[i]).1 >= 1 by {
            assert(self@.contains_pair(entries_of(out@)[i].0, entries_of(out@)[i].1));
        }
        out
    }
}

/// Counts the records of `input`. Each distinct record becomes one key of
/// the table, and the counts add up to the number of records.
pub fn count_items(input: &[u8]) -> (table: FrequencyTable)
    ensures
        table@ == counts_of(records_of(input@)),
        table.wf(),
        table.tally() == records_of(input@).to_multiset(),
        table.tally().len() == records_of(input@).len(),
{
    let mut table = FrequencyTable::new();
    table.add_records(input);
    proof {
        lemma_counted_from_nothing(records_of(input@));
        lemma_records_len(input@);
        assert(records_of(input@).len() <= input.len());
        lemma_tally_of_counts(records_of(input@));
    }
    table
}

} // verus!
