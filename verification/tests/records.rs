use count::records::RecordReader;

fn records(input: &[u8]) -> Vec<Vec<u8>> {
    let mut reader = RecordReader::new(input);
    let mut found = Vec::new();
    while let Some(record) = reader.next_record() {
        found.push(record.to_vec());
    }
    assert_eq!(reader.next_record(), None);
    found
}

fn expect(input: &[u8], expected: &[&[u8]]) {
    let expected: Vec<Vec<u8>> = expected.iter().map(|r| r.to_vec()).collect();
    assert_eq!(records(input), expected);
}

#[test]
fn carriage_return_goes_with_its_line_feed() {
    expect(b"a\r\nb\n", &[b"a", b"b"]);
}

#[test]
fn last_record_needs_no_line_feed() {
    expect(b"x\ny", &[b"x", b"y"]);
}

#[test]
fn empty_stream_has_no_record() {
    expect(b"", &[]);
}

#[test]
fn bare_line_feed_is_an_empty_record() {
    expect(b"\n", &[b""]);
    expect(b"\n\n", &[b"", b""]);
    expect(b"\r\n", &[b""]);
    expect(b"a\n\nb\n", &[b"a", b"", b"b"]);
}

#[test]
fn only_one_carriage_return_is_dropped() {
    expect(b"a\r\r\n", &[b"a\r"]);
    expect(b"a\rb\n", &[b"a\rb"]);
    expect(b"\r\r\n\r\n", &[b"\r", b""]);
}

#[test]
fn unterminated_record_keeps_its_carriage_return() {
    expect(b"a\r", &[b"a\r"]);
    expect(b"x\ny\r", &[b"x", b"y\r"]);
    expect(b"\r", &[b"\r"]);
}

#[test]
fn records_are_bytes_of_any_kind() {
    expect(&[0xff, 0x00, 0x0a, 0xc3, 0x28, 0x0d, 0x0a, 0x80], &[
        &[0xff, 0x00],
        &[0xc3, 0x28],
        &[0x80],
    ]);
}

#[test]
fn one_line_is_one_record() {
    expect(b"hello world", &[b"hello world"]);
    expect(b"hello world\n", &[b"hello world"]);
}
