//! Ordering the entries of a table, in full or only as far as a limit asks.

use core::cmp::Ordering;
use vstd::prelude::*;
use partial_sort::PartialSort;
use rayon::slice::ParallelSliceMut;
use crate::SortingOrder;
use crate::table::entry_of;
use crate::table::entries_of;

verus! {

/// Whether `a` is at most `b` in byte-lexicographic order: at the first
/// position where they differ `a` holds the smaller byte, or `a` ends first.
pub open spec fn bytes_le(a: Seq<u8>, b: Seq<u8>) -> bool
    decreases a.len(),
{
    if a.len() == 0 {
        true
    } else if b.len() == 0 {
        false
    } else if a[0] != b[0] {
        a[0] < b[0]
    } else {
        bytes_le(a.drop_first(), b.drop_first())
    }
}

/// Whether an entry `a` may stand before an entry `b` under `order`.
pub open spec fn entry_le(order: SortingOrder, a: (Seq<u8>, u64), b: (Seq<u8>, u64)) -> bool {
    match order {
        SortingOrder::count => a.1 > b.1 || (a.1 == b.1 && bytes_le(a.0, b.0)),
        SortingOrder::key => bytes_le(a.0, b.0),
        SortingOrder::none => true,
    }
}

/// Of two byte sequences one is at most the other.
pub proof fn lemma_bytes_le_total(a: Seq<u8>, b: Seq<u8>)
    ensures
        bytes_le(a, b) || bytes_le(b, a),
    decreases a.len(),
{
    if a.len() > 0 && b.len() > 0 && a[0] == b[0] {
        lemma_bytes_le_total(a.drop_first(), b.drop_first());
    }
}

/// Two byte sequences that are each at most the other are the same.
pub proof fn lemma_bytes_le_antisymmetric(a: Seq<u8>, b: Seq<u8>)
    requires
        bytes_le(a, b),
        bytes_le(b, a),
    ensures
        a == b,
    decreases a.len(),
{
    if a.len() > 0 {
        lemma_bytes_le_antisymmetric(a.drop_first(), b.drop_first());
        assert(a =~= seq![a[0]] + a.drop_first());
        assert(b =~= seq![b[0]] + b.drop_first());
    } else {
        assert(a =~= b);
    }
}

/// What is at most a sequence that is at most a third is at most the third.
pub proof fn lemma_bytes_le_transitive(a: Seq<u8>, b: Seq<u8>, c: Seq<u8>)
    requires
        bytes_le(a, b),
        bytes_le(b, c),
    ensures
        bytes_le(a, c),
    decreases a.len(),
{
    if a.len() > 0 && a[0] == b[0] && b[0] == c[0] {
        lemma_bytes_le_transitive(a.drop_first(), b.drop_first(), c.drop_first());
    }
}

/// Where two sequences agree on their first `n` bytes, what follows decides their order.
proof fn lemma_bytes_le_skip(a: Seq<u8>, b: Seq<u8>, n: int)
    requires
        0 <= n <= a.len(),
        n <= b.len(),
        forall|k: int| 0 <= k < n ==> a[k] == b[k],
    ensures
        bytes_le(a, b) == bytes_le(a.skip(n), b.skip(n)),
    decreases n,
{
    if n == 0 {
        assert(a.skip(0) =~= a);
        assert(b.skip(0) =~= b);
    } else {
        lemma_bytes_le_skip(a.drop_first(), b.drop_first(), n - 1);
        assert(a.drop_first().skip(n - 1) =~= a.skip(n));
        assert(b.drop_first().skip(n - 1) =~= b.skip(n));
    }
}

/// The order of two sequences, read off the first position at which they
/// differ or one of them ends.
proof fn lemma_bytes_le_at(a: Seq<u8>, b: Seq<u8>, n: usize)
    requires
        n <= a.len(),
        n <= b.len(),
        forall|k: int| 0 <= k < n ==> a[k] == b[k],
        n == a.len() || n == b.len() || a[n as int] != b[n as int],
    ensures
        bytes_le(a, b) <==> n == a.len() || (n < b.len() && a[n as int] < b[n as int]),
        a == b <==> n == a.len() && n == b.len(),
{
    let i = n as int;
    lemma_bytes_le_skip(a, b, i);
    if i == a.len() && i == b.len() {
        assert(a =~= b);
    }
}

/// The first position at which `a` and `b` differ, or at which one of them ends.
fn first_difference(a: &[u8], b: &[u8]) -> (n: usize)
    ensures
        n <= a@.len(),
        n <= b@.len(),
        forall|k: int| 0 <= k < n ==> a@[k] == b@[k],
        n == a@.len() || n == b@.len() || a@[n as int] != b@[n as int],
{
    let mut n: usize = 0;
    while n < a.len() && n < b.len() && a[n] == b[n]
        invariant
            n <= a@.len(),
            n <= b@.len(),
            forall|k: int| 0 <= k < n ==> a@[k] == b@[k],
        decreases a@.len() - n,
    {
        n = n + 1;
    }
    n
}

/// Compares two byte strings lexicographically.
pub fn compare_bytes(a: &[u8], b: &[u8]) -> (o: Ordering)
    ensures
        o != Ordering::Greater <==> bytes_le(a@, b@),
        o != Ordering::Less <==> bytes_le(b@, a@),
        o == Ordering::Equal <==> a@ == b@,
{
    let n = first_difference(a, b);
    proof {
        lemma_bytes_le_at(a@, b@, n);
        lemma_bytes_le_at(b@, a@, n);
    }
    if n < a.len() && n < b.len() {
        if a[n] < b[n] {
            Ordering::Less
        } else {
            Ordering::Greater
        }
    } else if n < b.len() {
        Ordering::Less
    } else if n < a.len() {
        Ordering::Greater
    } else {
        Ordering::Equal
    }
}

/// Compares two entries under `order`: `Less` where the first must stand
/// before the second, `Greater` where it must stand after it.
pub fn compare_entries(
    order: &SortingOrder,
    a: &(&Vec<u8>, &u64),
    b: &(&Vec<u8>, &u64),
) -> (o: Ordering)
    ensures
        o != Ordering::Greater <==> entry_le(*order, entry_of(*a), entry_of(*b)),
        o != Ordering::Less <==> entry_le(*order, entry_of(*b), entry_of(*a)),
{
    match order {
        SortingOrder::count => {
            if *a.1 > *b.1 {
                Ordering::Less
            } else if *a.1 < *b.1 {
                Ordering::Greater
            } else {
                compare_bytes(a.0.as_slice(), b.0.as_slice())
            }
        },
        SortingOrder::key => compare_bytes(a.0.as_slice(), b.0.as_slice()),
        SortingOrder::none => Ordering::Equal,
    }
}

/// How many entries a ranking has to put in order: all `len` of them, or as
/// many as the limit asks for where that is fewer.
pub open spec fn leading(limit: Option<usize>, len: nat) -> nat {
    match limit {
        Some(n) => if n < len {
            n as nat
        } else {
            len
        },
        None => len,
    }
}

/// Whether each of the first `n` entries may stand before every entry that
/// follows it: the first `n` are in order, and none of the rest belongs
/// before one of them.
pub open spec fn in_order(entries: Seq<(Seq<u8>, u64)>, order: SortingOrder, n: nat) -> bool {
    forall|i: int, j: int|
        0 <= i < n && i < j < entries.len() ==> entry_le(
            order,
            #[trigger] entries[i],
            #[trigger] entries[j],
        )
}

/// Whether `after` is a ranking of `before`. Without an order nothing moves.
/// With one, `after` holds the entries of `before`, and as many of them as
/// `limit` asks for lead it in order.
pub open spec fn ranked(
    before: Seq<(Seq<u8>, u64)>,
    order: SortingOrder,
    limit: Option<usize>,
    after: Seq<(Seq<u8>, u64)>,
) -> bool {
    match order {
        SortingOrder::none => after == before,
        _ => after.to_multiset() == before.to_multiset() && in_order(
            after,
            order,
            leading(limit, before.len()),
        ),
    }
}

/// `partial_sort` of the `partial_sort` crate, comparing with
/// `compare_entries`: the entries are rearranged so that the first `last` of
/// them are the ones that come first under `order`, in order. The crate
/// stops with a panic where `last` exceeds the length. It asks for a
/// comparison that is total and transitive, which `lemma_entry_le_total` and
/// `lemma_entry_le_transitive` show of this one.
#[verifier::external_body]
fn partial_sort_by(counts: &mut Vec<(&Vec<u8>, &u64)>, last: usize, order: &SortingOrder)
    requires
        last <= old(counts)@.len(),
    ensures
        entries_of(final(counts)@).to_multiset() == entries_of(old(counts)@).to_multiset(),
        (forall|i: int, j: int|
            0 <= i < last && i < j < final(counts)@.len() ==> entry_le(
                *order,
                entry_of(#[trigger] final(counts)@[i]),
                entry_of(#[trigger] final(counts)@[j]),
            )),
{
    counts.partial_sort(last, |a, b| compare_entries(order, a, b));
}

/// `par_sort_unstable_by` of rayon, comparing with `compare_entries`: the
/// entries are rearranged so that all of them are in order under `order`.
/// It asks for a comparison that is total and transitive, as above.
#[verifier::external_body]
fn full_sort_by(counts: &mut Vec<(&Vec<u8>, &u64)>, order: &SortingOrder)
    ensures
        entries_of(final(counts)@).to_multiset() == entries_of(old(counts)@).to_multiset(),
        (forall|i: int, j: int|
            0 <= i < j < final(counts)@.len() ==> entry_le(
                *order,
                entry_of(#[trigger] final(counts)@[i]),
                entry_of(#[trigger] final(counts)@[j]),
            )),
{
    counts.par_sort_unstable_by(|a, b| compare_entries(order, a, b));
}

/// Ranks `counts` in place under `sorting_order`. With a limit only that
/// many leading entries are put in order, and the rest follow in no
/// particular order; without one all entries are sorted.
pub fn sort_counts(
    counts: &mut Vec<(&Vec<u8>, &u64)>,
    sorting_order: &SortingOrder,
    num_items: Option<usize>,
)
    ensures
        ranked(entries_of(old(counts)@), *sorting_order, num_items, entries_of(final(counts)@)),
{
    match sorting_order {
        SortingOrder::none => (),
        _ => {
            match num_items {
                Some(n) => {
                    let last = if n < counts.len() {
                        n
                    } else {
                        counts.len()
                    };
                    partial_sort_by(counts, last, sorting_order);
                },
                None => {
                    full_sort_by(counts, sorting_order);
                },
            }
            proof {
                assert(entries_of(counts@).len() == entries_of(old(counts)@).len()) by {
                    entries_of(counts@).to_multiset_ensures();
                    entries_of(old(counts)@).to_multiset_ensures();
                }
            }
        },
    }
}

/// Whether no two entries of the sequence hold the same record.
pub open spec fn distinct_records(entries: Seq<(Seq<u8>, u64)>) -> bool {
    forall|i: int, j: int|
        0 <= i < j < entries.len() ==> (#[trigger] entries[i]).0 != (#[trigger] entries[j]).0
}

/// Whether `order` leaves no choice among the entries: two of them that may
/// each stand before the other are the same entry.
pub open spec fn decides(order: SortingOrder, entries: Seq<(Seq<u8>, u64)>) -> bool {
    forall|i: int, j: int|
        0 <= i < entries.len() && 0 <= j < entries.len() && entry_le(
            order,
            #[trigger] entries[i],
            #[trigger] entries[j],
        ) && entry_le(order, entries[j], entries[i]) ==> entries[i] == entries[j]
}

/// Under any order, of two entries one may stand before the other.
pub proof fn lemma_entry_le_total(order: SortingOrder, a: (Seq<u8>, u64), b: (Seq<u8>, u64))
    ensures
        entry_le(order, a, b) || entry_le(order, b, a),
{
    lemma_bytes_le_total(a.0, b.0);
}

/// Under any order, what may stand before an entry may stand before all that
/// this entry may stand before.
pub proof fn lemma_entry_le_transitive(
    order: SortingOrder,
    a: (Seq<u8>, u64),
    b: (Seq<u8>, u64),
    c: (Seq<u8>, u64),
)
    requires
        entry_le(order, a, b),
        entry_le(order, b, c),
    ensures
        entry_le(order, a, c),
{
    if bytes_le(a.0, b.0) && bytes_le(b.0, c.0) {
        lemma_bytes_le_transitive(a.0, b.0, c.0);
    }
}

/// Ordering by count leaves no choice among any entries.
pub proof fn lemma_count_order_decides(entries: Seq<(Seq<u8>, u64)>)
    ensures
        decides(SortingOrder::count, entries),
{
    assert forall|i: int, j: int|
        0 <= i < entries.len() && 0 <= j < entries.len() && entry_le(
            SortingOrder::count,
            #[trigger] entries[i],
            #[trigger] entries[j],
        ) && entry_le(SortingOrder::count, entries[j], entries[i]) implies entries[i]
        == entries[j] by {
        lemma_bytes_le_antisymmetric(entries[i].0, entries[j].0);
    }
}

/// Ordering by record leaves no choice among entries with distinct records.
pub proof fn lemma_key_order_decides(entries: Seq<(Seq<u8>, u64)>)
    requires
        distinct_records(entries),
    ensures
        decides(SortingOrder::key, entries),
{
    assert forall|i: int, j: int|
        0 <= i < entries.len() && 0 <= j < entries.len() && entry_le(
            SortingOrder::key,
            #[trigger] entries[i],
            #[trigger] entries[j],
        ) && entry_le(SortingOrder::key, entries[j], entries[i]) implies entries[i]
        == entries[j] by {
        lemma_bytes_le_antisymmetric(entries[i].0, entries[j].0);
    }
}

/// Two arrangements of the same entries whose first `n` entries are each in
/// order agree on those `n` entries, where the order leaves no choice.
pub proof fn lemma_leading_entries_agree(
    a: Seq<(Seq<u8>, u64)>,
    b: Seq<(Seq<u8>, u64)>,
    order: SortingOrder,
    n: nat,
)
    requires
        a.to_multiset() == b.to_multiset(),
        n <= a.len(),
        in_order(a, order, n),
        in_order(b, order, n),
        decides(order, a),
    ensures
        a.take(n as int) == b.take(n as int),
    decreases n,
{
    a.to_multiset_ensures();
    b.to_multiset_ensures();
    assert(a.len() == b.len());
    if n == 0 {
        assert(a.take(0) =~= b.take(0));
    } else {
        // The first entry of each stands somewhere in the other.
        assert(a.contains(a[0]));
        assert(b.to_multiset().count(a[0]) > 0);
        assert(b.contains(a[0]));
        let k = choose|k: int| 0 <= k < b.len() && b[k] == a[0];
        assert(b.contains(b[0]));
        assert(a.to_multiset().count(b[0]) > 0);
        assert(a.contains(b[0]));
        let j = choose|j: int| 0 <= j < a.len() && a[j] == b[0];
        if j != 0 {
            assert(entry_le(order, a[0], a[j]));
        }
        if k != 0 {
            assert(entry_le(order, b[0], b[k]));
        }
        if j != 0 && k != 0 {
            assert(entry_le(order, a[j], a[0]));
        }
        assert(a[0] == b[0]);
        let a_rest = a.drop_first();
        let b_rest = b.drop_first();
        assert(a_rest =~= a.remove(0));
        assert(b_rest =~= b.remove(0));
        assert(a_rest.to_multiset() =~= b_rest.to_multiset());
        assert forall|i: int, j: int| 0 <= i < n - 1 && i < j < a_rest.len() implies entry_le(
            order,
            #[trigger] a_rest[i],
            #[trigger] a_rest[j],
        ) by {
            assert(entry_le(order, a[i + 1], a[j + 1]));
        }
        assert forall|i: int, j: int| 0 <= i < n - 1 && i < j < b_rest.len() implies entry_le(
            order,
            #[trigger] b_rest[i],
            #[trigger] b_rest[j],
        ) by {
            assert(entry_le(order, b[i + 1], b[j + 1]));
        }
        assert forall|i: int, j: int|
            0 <= i < a_rest.len() && 0 <= j < a_rest.len() && entry_le(
                order,
                #[trigger] a_rest[i],
                #[trigger] a_rest[j],
            ) && entry_le(order, a_rest[j], a_rest[i]) implies a_rest[i] == a_rest[j] by {
            assert(a_rest[i] == a[i + 1]);
            assert(a_rest[j] == a[j + 1]);
        }
        lemma_leading_entries_agree(a_rest, b_rest, order, (n - 1) as nat);
        assert(a.take(n as int) =~= seq![a[0]] + a_rest.take(n - 1));
        assert(b.take(n as int) =~= seq![b[0]] + b_rest.take(n - 1));
    }
}

/// Ranking is a function of what is ranked. Two rankings of the same
/// entries, under the same order and limit, agree on every entry that the
/// limit asks for, however the entries were arranged before. Ordering by
/// record asks that no record stands in two entries, as in a table; without
/// an order the two arrangements have to be the same.
pub proof fn lemma_ranking_determined(
    first: Seq<(Seq<u8>, u64)>,
    second: Seq<(Seq<u8>, u64)>,
    order: SortingOrder,
    limit: Option<usize>,
    a: Seq<(Seq<u8>, u64)>,
    b: Seq<(Seq<u8>, u64)>,
)
    requires
        first.to_multiset() == second.to_multiset(),
        order == SortingOrder::key ==> distinct_records(first),
        order == SortingOrder::none ==> first == second,
        ranked(first, order, limit, a),
        ranked(second, order, limit, b),
    ensures
        a.take(leading(limit, first.len()) as int) == b.take(leading(limit, second.len()) as int),
{
    first.to_multiset_ensures();
    second.to_multiset_ensures();
    a.to_multiset_ensures();
    assert(first.len() == second.len());
    let n = leading(limit, first.len());
    match order {
        SortingOrder::none => {},
        SortingOrder::count => {
            lemma_count_order_decides(a);
            lemma_leading_entries_agree(a, b, order, n);
        },
        SortingOrder::key => {
            lemma_distinct_records_rearranged(first, a);
            lemma_key_order_decides(a);
            lemma_leading_entries_agree(a, b, order, n);
        },
    }
}

/// Rearranging entries with distinct records leaves the records distinct.
pub proof fn lemma_distinct_records_rearranged(
    before: Seq<(Seq<u8>, u64)>,
    after: Seq<(Seq<u8>, u64)>,
)
    requires
        before.to_multiset() == after.to_multiset(),
        distinct_records(before),
    ensures
        distinct_records(after),
    decreases after.len(),
{
    before.to_multiset_ensures();
    after.to_multiset_ensures();
    if after.len() > 0 {
        let last = after.last();
        assert(after.contains(last));
        assert(before.to_multiset().count(last) > 0);
        assert(before.contains(last));
        let k = choose|k: int| 0 <= k < before.len() && before[k] == last;
        let before_rest = before.remove(k);
        let after_rest = after.drop_last();
        assert(after_rest =~= after.remove(after.len() - 1));
        assert(before_rest.to_multiset() =~= after_rest.to_multiset());
        assert forall|i: int, j: int| 0 <= i < j < before_rest.len() implies (
        #[trigger] before_rest[i]).0 != (#[trigger] before_rest[j]).0 by {
            let i0 = if i < k { i } else { i + 1 };
            let j0 = if j < k { j } else { j + 1 };
            assert(before_rest[i] == before[i0]);
            assert(before_rest[j] == before[j0]);
        }
        lemma_distinct_records_rearranged(before_rest, after_rest);
        assert forall|i: int, j: int| 0 <= i < j < after.len() implies (#[trigger] after[i]).0 != (
        #[trigger] after[j]).0 by {
            if j < after.len() - 1 {
                assert(after_rest[i] == after[i]);
                assert(after_rest[j] == after[j]);
            } else {
                // `after[i]` stands in `before_rest`, away from `before[k]`.
                assert(after_rest[i] == after[i]);
                assert(after_rest.contains(after[i]));
                after_rest.to_multiset_ensures();
                before_rest.to_multiset_ensures();
                assert(before_rest.to_multiset().count(after[i]) > 0);
                assert(before_rest.contains(after[i]));
                let m = choose|m: int| 0 <= m < before_rest.len() && before_rest[m] == after[i];
                let m0 = if m < k { m } else { m + 1 };
                assert(before_rest[m] == before[m0]);
                if m0 < k {
                    assert(before[m0].0 != before[k].0);
                } else {
                    assert(before[k].0 != before[m0].0);
                }
            }
        }
    }
}

/// Selecting the leading entries and sorting everything lead to the same
/// leading entries. Under the order by count, the first `limit` entries
/// that a ranking with that limit yields are the first `limit` entries of a
/// ranking without a limit.
pub proof fn lemma_partial_selection_agrees_with_full_sort(
    before: Seq<(Seq<u8>, u64)>,
    limit: usize,
    partial: Seq<(Seq<u8>, u64)>,
    full: Seq<(Seq<u8>, u64)>,
)
    requires
        limit <= before.len(),
        ranked(before, SortingOrder::count, Some(limit), partial),
        ranked(before, SortingOrder::count, None, full),
    ensures
        partial.take(limit as int) == full.take(limit as int),
{
    before.to_multiset_ensures();
    partial.to_multiset_ensures();
    full.to_multiset_ensures();
    lemma_count_order_decides(partial);
    lemma_leading_entries_agree(partial, full, SortingOrder::count, limit as nat);
}

} // verus!
