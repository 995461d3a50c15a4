use std::cmp::Ordering;

use count::rank::compare_bytes;
use count::rank::compare_entries;
use count::sort_counts;
use count::SortingOrder;

fn key(text: &str) -> Vec<u8> {
    text.as_bytes().to_vec()
}

#[test]
fn test_full_sort_counts_by_key() {
    let (a, b, c) = (key("a"), key("b"), key("c"));
    let mut input = vec![(&b, &3), (&c, &2), (&a, &1)];
    let output = vec![(&a, &1), (&b, &3), (&c, &2)];

    sort_counts(&mut input, &SortingOrder::key, None);

    assert_eq!(input, output);
}

#[test]
fn test_partial_sort_counts_by_key() {
    let (a, b, c) = (key("a"), key("b"), key("c"));
    let mut input = vec![(&b, &3), (&c, &2), (&a, &1)];
    let output = vec![(&a, &1), (&b, &3), (&c, &2)];

    sort_counts(&mut input, &SortingOrder::key, Some(2));

    assert_eq!(input, output);
}

#[test]
fn test_full_sort_counts_by_counts() {
    let (a, b, c) = (key("a"), key("b"), key("c"));
    let mut input = vec![(&c, &2), (&a, &1), (&b, &3)];
    let output = vec![(&b, &3), (&c, &2), (&a, &1)];

    sort_counts(&mut input, &SortingOrder::count, None);

    assert_eq!(input, output);
}

#[test]
fn test_partial_sort_counts_by_counts() {
    let (a, b, c) = (key("a"), key("b"), key("c"));
    let mut input = vec![(&c, &2), (&a, &1), (&b, &3)];
    let output = vec![(&b, &3), (&c, &2), (&a, &1)];

    sort_counts(&mut input, &SortingOrder::count, Some(2));

    assert_eq!(input, output);
}

#[test]
fn sort_without_order_moves_nothing() {
    let (a, b, c) = (key("a"), key("b"), key("c"));
    let mut input = vec![(&c, &2), (&a, &1), (&b, &3)];
    let output = input.clone();

    sort_counts(&mut input, &SortingOrder::none, None);
    assert_eq!(input, output);

    sort_counts(&mut input, &SortingOrder::none, Some(1));
    assert_eq!(input, output);
}

#[test]
fn equal_counts_rank_by_record() {
    let (a, ab, b, empty) = (key("a"), key("ab"), key("b"), key(""));
    let mut input = vec![(&b, &2), (&ab, &2), (&empty, &2), (&a, &2), (&b, &7)];
    let output = vec![(&b, &7), (&empty, &2), (&a, &2), (&ab, &2), (&b, &2)];

    sort_counts(&mut input, &SortingOrder::count, None);

    assert_eq!(input, output);
}

#[test]
fn records_rank_as_bytes_not_as_text() {
    let (upper, lower, high) = (key("Z"), key("a"), vec![0xff_u8, 0x00]);
    let mut input = vec![(&high, &1), (&lower, &1), (&upper, &1)];
    let output = vec![(&upper, &1), (&lower, &1), (&high, &1)];

    sort_counts(&mut input, &SortingOrder::key, None);

    assert_eq!(input, output);
}

#[test]
fn limit_beyond_the_entries_sorts_them_all() {
    let (a, b, c) = (key("a"), key("b"), key("c"));
    let mut input = vec![(&c, &2), (&a, &1), (&b, &3)];
    let output = vec![(&b, &3), (&c, &2), (&a, &1)];

    sort_counts(&mut input, &SortingOrder::count, Some(10));

    assert_eq!(input, output);
}

#[test]
fn limit_of_the_length_sorts_them_all() {
    let (a, b, c) = (key("a"), key("b"), key("c"));
    let mut input = vec![(&c, &2), (&a, &1), (&b, &3)];
    let output = vec![(&a, &1), (&b, &3), (&c, &2)];

    sort_counts(&mut input, &SortingOrder::key, Some(3));

    assert_eq!(input, output);
}

#[test]
fn limit_of_zero_keeps_every_entry() {
    let (a, b, c) = (key("a"), key("b"), key("c"));
    let mut input = vec![(&c, &2), (&a, &1), (&b, &3)];

    sort_counts(&mut input, &SortingOrder::count, Some(0));

    let mut found = input.clone();
    found.sort();
    assert_eq!(found, vec![(&a, &1), (&b, &3), (&c, &2)]);
}

#[test]
fn sorting_nothing_yields_nothing() {
    let mut input: Vec<(&Vec<u8>, &u64)> = Vec::new();

    sort_counts(&mut input, &SortingOrder::count, None);
    assert!(input.is_empty());

    sort_counts(&mut input, &SortingOrder::key, Some(4));
    assert!(input.is_empty());
}

fn sample() -> Vec<(Vec<u8>, u64)> {
    let mut entries = Vec::new();
    let mut state: u64 = 17;
    for i in 0..200_u64 {
        state = state.wrapping_mul(6364136223846793005).wrapping_add(1442695040888963407);
        entries.push((format!("record-{}", i).into_bytes(), (state >> 33) % 9 + 1));
    }
    entries
}

#[test]
fn partial_selection_matches_the_full_sort() {
    let entries = sample();
    for order in [SortingOrder::count, SortingOrder::key] {
        let mut full: Vec<(&Vec<u8>, &u64)> = entries.iter().map(|e| (&e.0, &e.1)).collect();
        sort_counts(&mut full, &order, None);
        for limit in [0_usize, 1, 2, 7, 50, 199, 200] {
            let mut partial: Vec<(&Vec<u8>, &u64)> =
                entries.iter().map(|e| (&e.0, &e.1)).collect();
            sort_counts(&mut partial, &order, Some(limit));
            assert_eq!(partial.len(), full.len());
            assert_eq!(&partial[..limit], &full[..limit]);
        }
    }
}

#[test]
fn full_sort_is_in_order_and_keeps_the_entries() {
    let entries = sample();
    let mut ranked: Vec<(&Vec<u8>, &u64)> = entries.iter().map(|e| (&e.0, &e.1)).collect();

    sort_counts(&mut ranked, &SortingOrder::count, None);

    for pair in ranked.windows(2) {
        let (a, b) = (pair[0], pair[1]);
        assert!(a.1 > b.1 || (a.1 == b.1 && a.0 < b.0));
    }
    let mut before: Vec<(&Vec<u8>, &u64)> = entries.iter().map(|e| (&e.0, &e.1)).collect();
    let mut after = ranked.clone();
    before.sort();
    after.sort();
    assert_eq!(before, after);
}

#[test]
fn ranking_twice_gives_the_same_ranking() {
    let entries = sample();
    for order in [SortingOrder::count, SortingOrder::key] {
        for limit in [None, Some(5_usize), Some(120)] {
            let mut first: Vec<(&Vec<u8>, &u64)> = entries.iter().map(|e| (&e.0, &e.1)).collect();
            let mut second: Vec<(&Vec<u8>, &u64)> =
                entries.iter().rev().map(|e| (&e.0, &e.1)).collect();
            sort_counts(&mut first, &order, limit);
            sort_counts(&mut second, &order, limit);
            let shown = limit.unwrap_or(entries.len());
            assert_eq!(&first[..shown], &second[..shown]);
        }
    }
}

#[test]
fn compare_bytes_is_lexicographic() {
    assert_eq!(compare_bytes(b"", b""), Ordering::Equal);
    assert_eq!(compare_bytes(b"", b"a"), Ordering::Less);
    assert_eq!(compare_bytes(b"a", b""), Ordering::Greater);
    assert_eq!(compare_bytes(b"abc", b"abc"), Ordering::Equal);
    assert_eq!(compare_bytes(b"ab", b"abc"), Ordering::Less);
    assert_eq!(compare_bytes(b"abd", b"abc"), Ordering::Greater);
    assert_eq!(compare_bytes(b"b", b"abc"), Ordering::Greater);
    assert_eq!(compare_bytes(&[0x7f], &[0x80]), Ordering::Less);
    assert_eq!(compare_bytes(&[0xff], &[0x00, 0xff]), Ordering::Greater);
}

#[test]
fn compare_entries_follows_the_order() {
    let (a, b) = (key("a"), key("b"));
    let (low, high) = (1_u64, 5_u64);

    let order = SortingOrder::count;
    assert_eq!(compare_entries(&order, &(&a, &high), &(&b, &low)), Ordering::Less);
    assert_eq!(compare_entries(&order, &(&a, &low), &(&b, &high)), Ordering::Greater);
    assert_eq!(compare_entries(&order, &(&a, &low), &(&b, &low)), Ordering::Less);
    assert_eq!(compare_entries(&order, &(&b, &low), &(&a, &low)), Ordering::Greater);
    assert_eq!(compare_entries(&order, &(&a, &low), &(&a, &low)), Ordering::Equal);

    let order = SortingOrder::key;
    assert_eq!(compare_entries(&order, &(&a, &low), &(&b, &high)), Ordering::Less);
    assert_eq!(compare_entries(&order, &(&b, &high), &(&a, &low)), Ordering::Greater);
    assert_eq!(compare_entries(&order, &(&a, &low), &(&a, &high)), Ordering::Equal);

    let order = SortingOrder::none;
    assert_eq!(compare_entries(&order, &(&b, &low), &(&a, &high)), Ordering::Equal);
}

#[test]
fn compare_bytes_agrees_with_the_order_of_byte_vectors() {
    let mut words: Vec<Vec<u8>> = vec![Vec::new(), vec![0], vec![0, 0], vec![255], vec![255, 0]];
    let mut state: u64 = 99;
    for _ in 0..60 {
        let mut word = Vec::new();
        loop {
            state = state.wrapping_mul(6364136223846793005).wrapping_add(1442695040888963407);
            let byte = (state >> 56) as u8;
            if byte % 4 == 0 {
                break;
            }
            word.push(byte % 3 + b'a');
        }
        words.push(word);
    }
    for a in &words {
        for b in &words {
            assert_eq!(compare_bytes(a, b), a.cmp(b));
        }
    }
}
