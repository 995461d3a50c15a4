//! Reading a report back into the entries that it was written from.

use vstd::prelude::*;
use crate::emit::decimal;
use crate::emit::emitted;
use crate::emit::lemma_decimal_is_digits;
use crate::emit::line_of;
use crate::emit::report_of;
use crate::emit::TAB;
use crate::emit::ZERO;
use crate::records::lemma_line_len;
use crate::records::lemma_line_len_holds;
use crate::records::line_len;
use crate::records::records_of;
use crate::records::without_carriage_return;
use crate::records::CARRIAGE_RETURN;
use crate::records::LINE_FEED;
use crate::table::counts_of;
use crate::table::lists;
use crate::table::stored_count;

verus! {

/// Where the count of a line starts: right after its last tab, or at zero
/// where the line holds no tab.
pub open spec fn count_start(line: Seq<u8>) -> int
    decreases line.len(),
{
    if line.len() == 0 {
        0
    } else if line.last() == TAB {
        line.len() as int
    } else {
        count_start(line.drop_last())
    }
}

/// The number that a sequence of decimal digits stands for.
pub open spec fn number_of(digits: Seq<u8>) -> nat
    decreases digits.len(),
{
    if digits.len() == 0 {
        0
    } else {
        number_of(digits.drop_last()) * 10 + (digits.last() - ZERO) as nat
    }
}

/// The entry that a line of a report stands for: the record is what stands
/// before the last tab, the count what follows it. A line without a tab is
/// read as a record that was never counted.
pub open spec fn read_line(line: Seq<u8>) -> (Seq<u8>, u64) {
    let start = count_start(line);
    if start == 0 {
        (line, 0)
    } else {
        (line.take(start - 1), stored_count(number_of(line.skip(start))))
    }
}

/// The entries that the lines of a report stand for, in the order of the lines.
pub open spec fn read_report(text: Seq<u8>) -> Seq<(Seq<u8>, u64)> {
    records_of(text).map_values(|line: Seq<u8>| read_line(line))
}

/// The table that a sequence of entries amounts to: every record that stands
/// in an entry, with the count that stands beside it.
pub open spec fn table_of(entries: Seq<(Seq<u8>, u64)>) -> Map<Seq<u8>, u64> {
    Map::new(
        |record: Seq<u8>| exists|i: int| 0 <= i < entries.len() && (#[trigger] entries[i]).0 == record,
        |record: Seq<u8>|
            entries[choose|i: int| 0 <= i < entries.len() && (#[trigger] entries[i]).0 == record].1,
    )
}

/// The digits of a number stand for that number.
pub proof fn lemma_number_of_decimal(n: nat)
    ensures
        number_of(decimal(n)) == n,
    decreases n,
{
    if n < 10 {
        assert(decimal(n).drop_last() =~= Seq::<u8>::empty());
        assert(number_of(decimal(n).drop_last()) == 0);
    } else {
        lemma_number_of_decimal(n / 10);
        assert(decimal(n).drop_last() =~= decimal(n / 10));
    }
}

/// Behind a tab that only digits follow, the count starts.
proof fn lemma_count_start(record: Seq<u8>, digits: Seq<u8>)
    requires
        forall|i: int| 0 <= i < digits.len() ==> #[trigger] digits[i] != TAB,
    ensures
        count_start(record + seq![TAB] + digits) == record.len() + 1,
    decreases digits.len(),
{
    let line = record + seq![TAB] + digits;
    if digits.len() == 0 {
        assert(line.last() == TAB);
    } else {
        assert(line.last() == digits.last());
        assert(line.drop_last() =~= record + seq![TAB] + digits.drop_last());
        lemma_count_start(record, digits.drop_last());
    }
}

/// No record of a stream holds a line feed.
pub proof fn lemma_records_hold_no_line_feed(bytes: Seq<u8>)
    ensures
        forall|k: int|
            0 <= k < records_of(bytes).len() ==> !(#[trigger] records_of(bytes)[k]).contains(
                LINE_FEED,
            ),
    decreases bytes.len(),
{
    let n = line_len(bytes) as int;
    lemma_line_len_holds(bytes);
    if bytes.len() > 0 && n < bytes.len() {
        lemma_records_hold_no_line_feed(bytes.skip(n + 1));
        let first = without_carriage_return(bytes.take(n));
        assert(!first.contains(LINE_FEED)) by {
            if first.contains(LINE_FEED) {
                let i = choose|i: int| 0 <= i < first.len() && first[i] == LINE_FEED;
                assert(first[i] == bytes[i]);
            }
        }
        assert forall|k: int| 0 <= k < records_of(bytes).len() implies !(
        #[trigger] records_of(bytes)[k]).contains(LINE_FEED) by {
            if k > 0 {
                assert(records_of(bytes)[k] == records_of(bytes.skip(n + 1))[k - 1]);
            }
        }
    } else if bytes.len() > 0 {
        assert(!bytes.contains(LINE_FEED)) by {
            if bytes.contains(LINE_FEED) {
                let i = choose|i: int| 0 <= i < bytes.len() && bytes[i] == LINE_FEED;
                assert(bytes[i] != LINE_FEED);
            }
        }
    }
}

/// A report starts with the line of its first entry.
pub proof fn lemma_report_of_first(entries: Seq<(Seq<u8>, u64)>)
    requires
        entries.len() > 0,
    ensures
        report_of(entries) == line_of(entries.first()) + report_of(entries.drop_first()),
    decreases entries.len(),
{
    if entries.len() == 1 {
        assert(entries.drop_last() =~= Seq::empty());
        assert(entries.drop_first() =~= Seq::empty());
        assert(report_of(entries) =~= line_of(entries.first()) + report_of(entries.drop_first()));
    } else {
        let front = entries.drop_last();
        lemma_report_of_first(front);
        assert(front.drop_first() =~= entries.drop_first().drop_last());
        assert(entries.drop_first().last() == entries.last());
        assert(front.first() == entries.first());
        assert(report_of(entries) =~= line_of(entries.first()) + report_of(entries.drop_first()));
    }
}

/// A line without its line feed is read as the entry that it was written for.
pub proof fn lemma_line_reads_back(entry: (Seq<u8>, u64))
    ensures
        read_line(entry.0 + seq![TAB] + decimal(entry.1 as nat)) == entry,
{
    let digits = decimal(entry.1 as nat);
    let line = entry.0 + seq![TAB] + digits;
    lemma_decimal_is_digits(entry.1 as nat);
    lemma_count_start(entry.0, digits);
    lemma_number_of_decimal(entry.1 as nat);
    assert(line.take(entry.0.len() as int) =~= entry.0);
    assert(line.skip(entry.0.len() as int + 1) =~= digits);
}

/// A report is read back as the entries that it was written from, where no
/// record holds a line feed.
pub proof fn lemma_report_reads_back(entries: Seq<(Seq<u8>, u64)>)
    requires
        forall|i: int| 0 <= i < entries.len() ==> !(#[trigger] entries[i]).0.contains(LINE_FEED),
    ensures
        read_report(report_of(entries)) == entries,
    decreases entries.len(),
{
    if entries.len() == 0 {
        assert(read_report(report_of(entries)) =~= entries);
    } else {
        let entry = entries.first();
        let rest = entries.drop_first();
        let digits = decimal(entry.1 as nat);
        let body = entry.0 + seq![TAB] + digits;
        let text = report_of(entries);
        lemma_report_of_first(entries);
        lemma_decimal_is_digits(entry.1 as nat);
        assert(text =~= body + seq![LINE_FEED] + report_of(rest));
        assert forall|i: int| 0 <= i < body.len() implies body[i] != LINE_FEED by {
            if i < entry.0.len() {
                assert(body[i] == entry.0[i]);
                assert(entry.0.contains(entry.0[i]));
            } else if i > entry.0.len() {
                assert(body[i] == digits[i - entry.0.len() - 1]);
            }
        }
        lemma_line_len(text, body.len() as int);
        assert(text.take(body.len() as int) =~= body);
        assert(text.skip(body.len() as int + 1) =~= report_of(rest));
        assert(body.last() == digits.last());
        assert(body.last() != CARRIAGE_RETURN);
        assert(without_carriage_return(body) == body);
        assert(records_of(text) =~= seq![body] + records_of(report_of(rest)));
        lemma_line_reads_back(entry);
        assert forall|i: int| 0 <= i < rest.len() implies !(#[trigger] rest[i]).0.contains(
            LINE_FEED,
        ) by {
            assert(rest[i] == entries[i + 1]);
        }
        lemma_report_reads_back(rest);
        assert(read_report(text) =~= seq![entry] + read_report(report_of(rest)));
        assert(seq![entry] + rest =~= entries);
    }
}

/// The entries that list a table amount to that table.
pub proof fn lemma_table_of_listing(listing: Seq<(Seq<u8>, u64)>, table: Map<Seq<u8>, u64>)
    requires
        lists(listing, table),
    ensures
        table_of(listing) == table,
{
    assert forall|record: Seq<u8>| table_of(listing).contains_key(record) implies table_of(
        listing,
    )[record] == table[record] by {
        let i = choose|i: int| 0 <= i < listing.len() && (#[trigger] listing[i]).0 == record;
        assert(table.contains_pair(listing[i].0, listing[i].1));
    }
    assert forall|record: Seq<u8>|
        table_of(listing).contains_key(record) <==> table.contains_key(record) by {
        if table_of(listing).contains_key(record) {
            let i = choose|i: int| 0 <= i < listing.len() && (#[trigger] listing[i]).0 == record;
            assert(table.contains_pair(listing[i].0, listing[i].1));
        }
    }
    assert(table_of(listing) =~= table);
}

/// Counting survives the report. Where the table counted from `input` is
/// written out in full, in the order of any listing of it, and every record
/// is text, what was written is read back as that listing, and the entries
/// read back amount to the table again.
pub proof fn lemma_round_trip(input: Seq<u8>, listing: Seq<(Seq<u8>, u64)>, text: Seq<u8>)
    requires
        lists(listing, counts_of(records_of(input))),
        emitted(listing, None, Seq::empty(), text, Ok(())),
    ensures
        read_report(text) == listing,
        table_of(read_report(text)) == counts_of(records_of(input)),
{
    let records = records_of(input);
    lemma_records_hold_no_line_feed(input);
    assert forall|i: int| 0 <= i < listing.len() implies !(#[trigger] listing[i]).0.contains(
        LINE_FEED,
    ) by {
        assert(counts_of(records).contains_pair(listing[i].0, listing[i].1));
        assert(records.contains(listing[i].0));
        let k = choose|k: int| 0 <= k < records.len() && records[k] == listing[i].0;
        assert(!records[k].contains(LINE_FEED));
    }
    assert(listing.take(listing.len() as int) =~= listing);
    assert(text =~= report_of(listing));
    lemma_report_reads_back(listing);
    lemma_table_of_listing(listing, counts_of(records));
}

} // verus!
