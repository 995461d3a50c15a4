//! Counts how often each line of a byte stream occurs and reports the counts
//! in ranked order.

use std::path::PathBuf;
use vstd::prelude::*;
use crate::emit::emitted;
use crate::emit::TextDecodingError;
use crate::rank::leading;
use crate::rank::lemma_ranking_determined;
use crate::rank::ranked;
use crate::records::records_of;
use crate::table::counts_of;
use crate::table::entries_of;
use crate::table::lemma_listings_agree;
use crate::table::lists;

pub mod emit;
pub mod rank;
pub mod readback;
pub mod records;
pub mod table;

pub use crate::emit::output_counts;
pub use crate::rank::sort_counts;
pub use crate::table::count_items;

verus! {

/// A path in the file system. The library carries it and never looks inside.
#[verifier::external_type_specification]
#[verifier::external_body]
pub struct ExPathBuf(PathBuf);

/// The criterion by which counted records are ranked.
#[derive(Clone, Copy, Debug, PartialEq, Eq, Structural)]
#[allow(non_camel_case_types)]
pub enum SortingOrder {
    /// Descending count; equal counts in ascending byte order of the record.
    count,
    /// Ascending byte order of the record.
    key,
    /// The order in which the table hands its entries out.
    none,
}

impl Default for SortingOrder {
    /// Ranking is by count unless something else is asked for.
    fn default() -> (order: Self)
        ensures
            order == SortingOrder::count,
    {
        SortingOrder::count
    }
}

/// What a run is asked to do.
#[derive(Debug)]
pub struct Config {
    /// The order of the report.
    pub sort_by: SortingOrder,
    /// How many entries the report holds at most; all of them where unset.
    pub max_items: Option<usize>,
    /// The file to count; standard input where unset.
    pub input: Option<PathBuf>,
}

impl Default for Config {
    /// Everything counted from standard input, ranked by count.
    fn default() -> (config: Self)
        ensures
            config.sort_by == SortingOrder::count,
            config.max_items is None,
            config.input is None,
    {
        Config { sort_by: SortingOrder::count, max_items: None, input: None }
    }
}

/// Whether a report of `input` under `order` and `limit` turns the output
/// `before` into `after` and ends in `result`: the records of `input` are
/// counted, some listing of the counts is ranked, and the ranking is written
/// as far as the limit allows.
pub open spec fn reported(
    input: Seq<u8>,
    order: SortingOrder,
    limit: Option<usize>,
    before: Seq<u8>,
    after: Seq<u8>,
    result: Result<(), TextDecodingError>,
) -> bool {
    exists|listing: Seq<(Seq<u8>, u64)>, ranking: Seq<(Seq<u8>, u64)>|
        lists(listing, counts_of(records_of(input))) && #[trigger] ranked(
            listing,
            order,
            limit,
            ranking,
        ) && emitted(ranking, limit, before, after, result)
}

/// Counts the records of `input`, ranks them as `config` asks and appends the
/// report to `io`.
///
/// `input` holds the bytes that were read from the place that `config`
/// names; reading them, and sending on what `io` holds afterwards, is left
/// to the caller. A record that is no UTF-8 text ends the report with an
/// error, after the lines that precede it.
pub fn run(config: Config, input: &[u8], io: &mut Vec<u8>) -> (result: Result<(), TextDecodingError>)
    ensures
        reported(input@, config.sort_by, config.max_items, old(io)@, final(io)@, result),
{
    let counter = count_items(input);
    let mut counts = counter.entries();
    let ghost listing = entries_of(counts@);
    sort_counts(&mut counts, &config.sort_by, config.max_items);
    let ghost ranking = entries_of(counts@);
    let result = output_counts(io, counts, config.max_items);
    proof {
        assert(ranked(listing, config.sort_by, config.max_items, ranking));
        assert(emitted(ranking, config.max_items, old(io)@, io@, result));
    }
    result
}

/// What is written depends on the entries only as far as the limit reaches.
proof fn lemma_emitted_determined(
    first: Seq<(Seq<u8>, u64)>,
    second: Seq<(Seq<u8>, u64)>,
    limit: Option<usize>,
    before: Seq<u8>,
    after_first: Seq<u8>,
    result_first: Result<(), TextDecodingError>,
    after_second: Seq<u8>,
    result_second: Result<(), TextDecodingError>,
)
    requires
        first.len() == second.len(),
        first.take(leading(limit, first.len()) as int) == second.take(
            leading(limit, first.len()) as int,
        ),
        emitted(first, limit, before, after_first, result_first),
        emitted(second, limit, before, after_second, result_second),
    ensures
        after_first == after_second,
        result_first == result_second,
{
    let n = leading(limit, first.len()) as int;
    assert forall|i: int| 0 <= i < n implies first[i] == second[i] by {
        assert(first.take(n)[i] == second.take(n)[i]);
    }
    match (result_first, result_second) {
        (Ok(u), Ok(v)) => {
            assert(u == v);
        },
        (Err(a), Err(b)) => {
            let p = a.position as int;
            let q = b.position as int;
            assert(first[p] == second[p]);
            assert(first[q] == second[q]);
            assert(p == q);
            assert(first.take(p) =~= first.take(n).take(p));
            assert(second.take(p) =~= second.take(n).take(p));
        },
        (Ok(_), Err(b)) => {
            assert(first[b.position as int] == second[b.position as int]);
        },
        (Err(a), Ok(_)) => {
            assert(first[a.position as int] == second[a.position as int]);
        },
    }
}

/// Under the orders by count and by record the report is a function of the
/// input, the order and the limit: whichever listing the table gave and
/// however the sorting went about it, the same bytes are written and the
/// same result is returned.
pub proof fn lemma_report_determined(
    input: Seq<u8>,
    order: SortingOrder,
    limit: Option<usize>,
    before: Seq<u8>,
    after_first: Seq<u8>,
    result_first: Result<(), TextDecodingError>,
    after_second: Seq<u8>,
    result_second: Result<(), TextDecodingError>,
)
    requires
        order != SortingOrder::none,
        reported(input, order, limit, before, after_first, result_first),
        reported(input, order, limit, before, after_second, result_second),
    ensures
        after_first == after_second,
        result_first == result_second,
{
    let table = counts_of(records_of(input));
    let (listing_first, ranking_first) = choose|
        listing: Seq<(Seq<u8>, u64)>,
        ranking: Seq<(Seq<u8>, u64)>,
    |
        lists(listing, table) && #[trigger] ranked(listing, order, limit, ranking) && emitted(
            ranking,
            limit,
            before,
            after_first,
            result_first,
        );
    let (listing_second, ranking_second) = choose|
        listing: Seq<(Seq<u8>, u64)>,
        ranking: Seq<(Seq<u8>, u64)>,
    |
        lists(listing, table) && #[trigger] ranked(listing, order, limit, ranking) && emitted(
            ranking,
            limit,
            before,
            after_second,
            result_second,
        );
    lemma_listings_agree(listing_first, listing_second, table);
    lemma_ranking_determined(
        listing_first,
        listing_second,
        order,
        limit,
        ranking_first,
        ranking_second,
    );
    listing_first.to_multiset_ensures();
    listing_second.to_multiset_ensures();
    ranking_first.to_multiset_ensures();
    ranking_second.to_multiset_ensures();
    lemma_emitted_determined(
        ranking_first,
        ranking_second,
        limit,
        before,
        after_first,
        result_first,
        after_second,
        result_second,
    );
}

} // verus!
