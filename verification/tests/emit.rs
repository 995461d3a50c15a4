use count::emit::format_line;
use count::emit::next_emission;
use count::emit::push_decimal;
use count::emit::Emission;
use count::emit::TextDecodingError;
use count::output_counts;

fn key(text: &str) -> Vec<u8> {
    text.as_bytes().to_vec()
}

fn digits(n: u64) -> Vec<u8> {
    let mut out = Vec::new();
    push_decimal(&mut out, n);
    out
}

#[test]
fn decimal_digits_are_exact() {
    assert_eq!(digits(0), b"0");
    assert_eq!(digits(7), b"7");
    assert_eq!(digits(9), b"9");
    assert_eq!(digits(10), b"10");
    assert_eq!(digits(626), b"626");
    assert_eq!(digits(1_000_000), b"1000000");
    assert_eq!(digits(u64::MAX), b"18446744073709551615");
}

#[test]
fn decimal_digits_follow_what_is_there() {
    let mut out = b"n=".to_vec();
    push_decimal(&mut out, 42);
    assert_eq!(out, b"n=42");
}

#[test]
fn line_is_record_tab_count_line_feed() {
    assert_eq!(format_line(b"com", 626), b"com\t626\n");
    assert_eq!(format_line(b"", 1), b"\t1\n");
    assert_eq!(format_line(b"a\tb", 12), b"a\tb\t12\n");
}

#[test]
fn output_holds_a_line_for_each_entry() {
    let (a, b, c) = (key("a"), key("b"), key("c"));
    let counts = vec![(&b, &3), (&c, &2), (&a, &1)];
    let mut io = Vec::new();

    assert_eq!(output_counts(&mut io, counts, None), Ok(()));

    assert_eq!(io, b"b\t3\nc\t2\na\t1\n");
}

#[test]
fn output_stops_at_the_limit() {
    let (a, b, c) = (key("a"), key("b"), key("c"));
    let counts = vec![(&b, &3), (&c, &2), (&a, &1)];

    let mut io = Vec::new();
    assert_eq!(output_counts(&mut io, counts.clone(), Some(2)), Ok(()));
    assert_eq!(io, b"b\t3\nc\t2\n");

    let mut io = Vec::new();
    assert_eq!(output_counts(&mut io, counts.clone(), Some(0)), Ok(()));
    assert_eq!(io, b"");

    let mut io = Vec::new();
    assert_eq!(output_counts(&mut io, counts, Some(9)), Ok(()));
    assert_eq!(io, b"b\t3\nc\t2\na\t1\n");
}

#[test]
fn output_follows_what_is_there() {
    let a = key("a");
    let mut io = b"head\n".to_vec();

    assert_eq!(output_counts(&mut io, vec![(&a, &1)], None), Ok(()));

    assert_eq!(io, b"head\na\t1\n");
}

#[test]
fn output_of_nothing_is_empty() {
    let mut io = Vec::new();
    assert_eq!(output_counts(&mut io, Vec::new(), None), Ok(()));
    assert_eq!(io, b"");
}

#[test]
fn record_that_is_no_text_fails_and_keeps_the_lines_before_it() {
    let (a, bad, c) = (key("a"), vec![0x66_u8, 0xff, 0x6f], key("c"));
    let counts = vec![(&a, &4), (&bad, &2), (&c, &1)];
    let mut io = Vec::new();

    let result = output_counts(&mut io, counts, None);

    assert_eq!(result, Err(TextDecodingError { position: 1 }));
    assert_eq!(io, b"a\t4\n");
}

#[test]
fn record_that_is_no_text_beyond_the_limit_does_no_harm() {
    let (a, bad) = (key("a"), vec![0xc3_u8]);
    let counts = vec![(&a, &4), (&bad, &2)];
    let mut io = Vec::new();

    assert_eq!(output_counts(&mut io, counts, Some(1)), Ok(()));

    assert_eq!(io, b"a\t4\n");
}

#[test]
fn text_of_several_bytes_per_character_is_written_as_it_is() {
    let word = key("gr\u{fc}\u{df}e \u{4e16}\u{754c}");
    let mut io = Vec::new();

    assert_eq!(output_counts(&mut io, vec![(&word, &2)], None), Ok(()));

    assert_eq!(io, "gr\u{fc}\u{df}e \u{4e16}\u{754c}\t2\n".as_bytes());
}

#[test]
fn emitter_writes_line_by_line() {
    let (a, b) = (key("a"), key("b"));
    let counts = vec![(&b, &3), (&a, &1)];

    match next_emission(&counts, None, 0, true) {
        Emission::Line(line) => assert_eq!(line, b"b\t3\n"),
        other => panic!("{:?}", other),
    }
    match next_emission(&counts, None, 1, true) {
        Emission::Line(line) => assert_eq!(line, b"a\t1\n"),
        other => panic!("{:?}", other),
    }
    assert!(matches!(next_emission(&counts, None, 2, true), Emission::Finished));
    assert!(matches!(next_emission(&counts, None, 7, true), Emission::Finished));
    assert!(matches!(next_emission(&counts, Some(1), 1, true), Emission::Finished));
}

#[test]
fn emitter_stops_without_error_once_the_sink_is_closed() {
    let (a, bad) = (key("a"), vec![0xff_u8]);
    let counts = vec![(&a, &1), (&bad, &1)];

    assert!(matches!(next_emission(&counts, None, 0, false), Emission::Finished));
    assert!(matches!(next_emission(&counts, None, 1, false), Emission::Finished));
}

#[test]
fn emitter_fails_on_a_record_that_is_no_text() {
    let (a, bad) = (key("a"), vec![0xed_u8, 0xa0, 0x80]);
    let counts = vec![(&a, &1), (&bad, &1)];

    match next_emission(&counts, None, 1, true) {
        Emission::Failed(error) => assert_eq!(error.position, 1),
        other => panic!("{:?}", other),
    }
}

#[test]
fn what_is_written_is_text() {
    let (a, word, bad) = (key("a\tb"), key("\u{e9}t\u{e9}"), vec![0xf8_u8]);
    let counts = vec![(&word, &18_446_744_073_709_551_615_u64), (&a, &10), (&bad, &1)];
    let mut io = Vec::new();

    assert_eq!(output_counts(&mut io, counts, None), Err(TextDecodingError { position: 2 }));

    assert_eq!(
        String::from_utf8(io),
        Ok("\u{e9}t\u{e9}\t18446744073709551615\na\tb\t10\n".to_string())
    );
}
