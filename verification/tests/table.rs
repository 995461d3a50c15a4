use count::count_items;
use count::table::FrequencyTable;

fn sorted(table: &FrequencyTable) -> Vec<(Vec<u8>, u64)> {
    let mut found: Vec<(Vec<u8>, u64)> =
        table.entries().into_iter().map(|(k, v)| (k.clone(), *v)).collect();
    found.sort();
    found
}

fn pairs(expected: &[(&[u8], u64)]) -> Vec<(Vec<u8>, u64)> {
    expected.iter().map(|(k, v)| (k.to_vec(), *v)).collect()
}

#[test]
fn new_table_is_empty() {
    let table = FrequencyTable::new();
    assert!(table.entries().is_empty());
}

#[test]
fn add_counts_from_one() {
    let mut table = FrequencyTable::new();
    table.add(b"b");
    assert_eq!(sorted(&table), pairs(&[(b"b", 1)]));
    table.add(b"a");
    assert_eq!(sorted(&table), pairs(&[(b"a", 1), (b"b", 1)]));
    table.add(b"b");
    table.add(b"b");
    assert_eq!(sorted(&table), pairs(&[(b"a", 1), (b"b", 3)]));
    table.add(b"");
    assert_eq!(sorted(&table), pairs(&[(b"", 1), (b"a", 1), (b"b", 3)]));
}

#[test]
fn count_items_counts_each_record() {
    let table = count_items(b"b\nc\na\nb\nb\nc\n");
    assert_eq!(sorted(&table), pairs(&[(b"a", 1), (b"b", 3), (b"c", 2)]));
}

#[test]
fn count_items_of_nothing_is_empty() {
    let table = count_items(b"");
    assert!(table.entries().is_empty());
}

#[test]
fn line_endings_do_not_tell_records_apart() {
    let table = count_items(b"a\r\na\na");
    assert_eq!(sorted(&table), pairs(&[(b"a", 3)]));
}

#[test]
fn records_that_differ_in_a_byte_are_told_apart() {
    let table = count_items(b"a\na \nA\na\r\r\n\n\n");
    assert_eq!(sorted(&table), pairs(&[(b"", 2), (b"A", 1), (b"a", 1), (b"a\r", 1), (b"a ", 1)]));
}

#[test]
fn counts_add_up_to_the_number_of_records() {
    let mut input = Vec::new();
    let mut lines = 0_u64;
    for i in 0..500_u32 {
        input.extend_from_slice(format!("{}\n", (i * i) % 37).as_bytes());
        lines += 1;
    }
    input.extend_from_slice(&[0xfe, 0xff]);
    lines += 1;

    let table = count_items(&input);

    let total: u64 = table.entries().iter().map(|(_, count)| **count).sum();
    assert_eq!(total, lines);
}

#[test]
fn every_record_is_one_entry() {
    let table = count_items(b"x\ny\nx\nz\ny\nx\n");
    let entries = table.entries();
    assert_eq!(entries.len(), 3);
    for (i, a) in entries.iter().enumerate() {
        assert!(*a.1 >= 1);
        for b in &entries[i + 1..] {
            assert_ne!(a.0, b.0);
        }
    }
}

#[test]
fn add_records_counts_into_what_is_there() {
    let mut table = count_items(b"a\nb\n");
    table.add_records(b"b\r\nc");
    assert_eq!(sorted(&table), pairs(&[(b"a", 1), (b"b", 2), (b"c", 1)]));
    table.add_records(b"");
    assert_eq!(sorted(&table), pairs(&[(b"a", 1), (b"b", 2), (b"c", 1)]));
}

#[test]
fn counting_line_by_line_is_counting_the_whole() {
    let input: &[u8] = b"b\r\nc\n\na\nb\n\r\nb\nc";
    let whole = count_items(input);

    let mut pieces = FrequencyTable::new();
    for line in input.split_inclusive(|byte| *byte == b'\n') {
        pieces.add_records(line);
    }

    assert_eq!(sorted(&pieces), sorted(&whole));
    assert_eq!(sorted(&whole), pairs(&[(b"", 2), (b"a", 1), (b"b", 3), (b"c", 2)]));
}
