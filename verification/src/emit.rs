//! Writing ranked entries as lines of text.

use vstd::prelude::*;
use vstd::utf8::valid_utf8;
use crate::rank::leading;
use crate::records::LINE_FEED;
use crate::table::entry_of;
use crate::table::entries_of;

verus! {

/// The byte between a record and its count.
pub const TAB: u8 = 0x09;

/// The digit zero.
pub const ZERO: u8 = 0x30;

/// The decimal digits of `n`, most significant first, without leading zeros.
pub open spec fn decimal(n: nat) -> Seq<u8>
    decreases n,
{
    if n < 10 {
        seq![(ZERO + n) as u8]
    } else {
        decimal(n / 10).push((ZERO + n % 10) as u8)
    }
}

/// The line that stands for an entry: the record, a tab, the count in
/// decimal digits and a line feed.
pub open spec fn line_of(entry: (Seq<u8>, u64)) -> Seq<u8> {
    entry.0 + seq![TAB] + decimal(entry.1 as nat) + seq![LINE_FEED]
}

/// The lines of `entries` one after the other.
pub open spec fn report_of(entries: Seq<(Seq<u8>, u64)>) -> Seq<u8>
    decreases entries.len(),
{
    if entries.len() == 0 {
        Seq::empty()
    } else {
        report_of(entries.drop_last()) + line_of(entries.last())
    }
}

/// A record that could not be written because its bytes are no UTF-8 text.
#[derive(Clone, Copy, Debug, PartialEq, Eq, Structural)]
pub struct TextDecodingError {
    /// Where the record stands among the ranked entries, counted from zero.
    pub position: usize,
}

/// What the emitter does next.
#[derive(Debug)]
pub enum Emission {
    /// This line is to be written.
    Line(Vec<u8>),
    /// Nothing is left to write, or the sink takes no more.
    Finished,
    /// The next record is no text.
    Failed(TextDecodingError),
}

/// Whether writing the lines of `entries`, as far as `limit` allows, turns
/// the output `before` into `after` and ends in `result`. The lines are
/// written in order up to the first record that is no UTF-8 text. Where
/// there is such a record the result names its position, and where there is
/// none the result is `Ok`.
pub open spec fn emitted(
    entries: Seq<(Seq<u8>, u64)>,
    limit: Option<usize>,
    before: Seq<u8>,
    after: Seq<u8>,
    result: Result<(), TextDecodingError>,
) -> bool {
    let n = leading(limit, entries.len());
    match result {
        Ok(_) => {
            &&& forall|i: int| 0 <= i < n ==> valid_utf8((#[trigger] entries[i]).0)
            &&& after == before + report_of(entries.take(n as int))
        },
        Err(error) => {
            &&& error.position < n
            &&& !valid_utf8(entries[error.position as int].0)
            &&& forall|i: int| 0 <= i < error.position ==> valid_utf8((#[trigger] entries[i]).0)
            &&& after == before + report_of(entries.take(error.position as int))
        },
    }
}

/// `core::str::from_utf8`: whether `bytes` are well-formed UTF-8.
#[verifier::external_body]
fn is_text(bytes: &[u8]) -> (ok: bool)
    ensures
        ok == valid_utf8(bytes@),
{
    core::str::from_utf8(bytes).is_ok()
}

/// Appends the decimal digits of `n` to `out`.
pub fn push_decimal(out: &mut Vec<u8>, n: u64)
    ensures
        final(out)@ == old(out)@ + decimal(n as nat),
{
    let mut digits: Vec<u8> = Vec::new();
    let mut rest: u64 = n;
    while rest >= 10
        invariant
            decimal(n as nat) == decimal(rest as nat) + digits@.reverse(),
        decreases rest,
    {
        let digit: u8 = ZERO + (rest % 10) as u8;
        proof {
            assert(digits@.push(digit).reverse() =~= seq![digit] + digits@.reverse());
            assert(decimal(rest as nat) == decimal((rest / 10) as nat).push(digit));
            assert(decimal((rest / 10) as nat).push(digit) + digits@.reverse() =~= decimal(
                (rest / 10) as nat,
            ) + (seq![digit] + digits@.reverse()));
        }
        digits.push(digit);
        rest = rest / 10;
    }
    let digit: u8 = ZERO + rest as u8;
    proof {
        assert(digits@.push(digit).reverse() =~= seq![digit] + digits@.reverse());
        assert(decimal(rest as nat) =~= seq![digit]);
    }
    digits.push(digit);
    let mut i: usize = digits.len();
    while i > 0
        invariant
            i <= digits@.len(),
            out@ == old(out)@ + digits@.reverse().take(digits@.len() - i),
        decreases i,
    {
        i = i - 1;
        proof {
            let shown = digits@.len() - i;
            assert(digits@.reverse().take(shown) =~= digits@.reverse().take(shown - 1).push(
                digits@[i as int],
            ));
        }
        out.push(digits[i]);
    }
    proof {
        assert(digits@.reverse().take(digits@.len() as int) =~= digits@.reverse());
    }
}

/// The line that stands for a record and its count.
pub fn format_line(record: &[u8], count: u64) -> (line: Vec<u8>)
    ensures
        line@ == line_of((record@, count)),
        valid_utf8(record@) ==> valid_utf8(line@),
{
    let mut line: Vec<u8> = Vec::new();
    line.extend_from_slice(record);
    line.push(TAB);
    push_decimal(&mut line, count);
    line.push(LINE_FEED);
    proof {
        assert(line@ =~= line_of((record@, count)));
        if valid_utf8(record@) {
            lemma_line_is_text((record@, count));
        }
    }
    line
}

/// Decides what the emitter does after `written` lines. It stops once the
/// sink takes no more or the lines that the limit allows are written;
/// otherwise the next entry becomes a line, or fails where its record is no
/// UTF-8 text.
pub fn next_emission(
    counts: &Vec<(&Vec<u8>, &u64)>,
    num_items: Option<usize>,
    written: usize,
    sink_open: bool,
) -> (step: Emission)
    ensures
        match step {
            Emission::Finished => !sink_open || written >= leading(num_items, counts@.len()),
            Emission::Line(line) => sink_open && written < leading(num_items, counts@.len())
                && valid_utf8(counts@[written as int].0@) && line@ == line_of(
                entry_of(counts@[written as int]),
            ) && valid_utf8(line@),
            Emission::Failed(error) => sink_open && written < leading(num_items, counts@.len())
                && !valid_utf8(counts@[written as int].0@) && error.position == written,
        },
{
    let n = match num_items {
        Some(n) => if n < counts.len() {
            n
        } else {
            counts.len()
        },
        None => counts.len(),
    };
    if !sink_open || written >= n {
        return Emission::Finished;
    }
    let entry = counts[written];
    if is_text(entry.0.as_slice()) {
        Emission::Line(format_line(entry.0.as_slice(), *entry.1))
    } else {
        Emission::Failed(TextDecodingError { position: written })
    }
}

/// Appends to `io` the lines of the entries of `counts`, in order and as far
/// as `num_items` allows. A record that is no UTF-8 text ends the output
/// with an error; the lines before it stay written.
pub fn output_counts(
    io: &mut Vec<u8>,
    counts: Vec<(&Vec<u8>, &u64)>,
    num_items: Option<usize>,
) -> (result: Result<(), TextDecodingError>)
    ensures
        emitted(entries_of(counts@), num_items, old(io)@, final(io)@, result),
{
    let ghost entries = entries_of(counts@);
    let mut written: usize = 0;
    proof {
        assert(entries.take(0) =~= Seq::empty());
    }
    loop
        invariant
            entries == entries_of(counts@),
            written <= leading(num_items, entries.len()),
            forall|i: int| 0 <= i < written ==> valid_utf8((#[trigger] entries[i]).0),
            io@ == old(io)@ + report_of(entries.take(written as int)),
        decreases leading(num_items, entries.len()) - written,
    {
        match next_emission(&counts, num_items, written, true) {
            Emission::Line(line) => {
                proof {
                    assert(written < counts.len());
                    let shown = entries.take(written + 1);
                    assert(shown.drop_last() =~= entries.take(written as int));
                    assert(shown.last() == entries[written as int]);
                    assert(old(io)@ + report_of(entries.take(written as int)) + line@ =~= old(io)@
                        + (report_of(entries.take(written as int)) + line@));
                }
                let mut line = line;
                io.append(&mut line);
                written = written + 1;
            },
            Emission::Finished => {
                return Ok(());
            },
            Emission::Failed(error) => {
                return Err(error);
            },
        }
    }
}

/// Bytes below `0x80` are UTF-8 text.
pub proof fn lemma_ascii_is_text(bytes: Seq<u8>)
    requires
        forall|i: int| 0 <= i < bytes.len() ==> #[trigger] bytes[i] < 0x80,
    ensures
        valid_utf8(bytes),
    decreases bytes.len(),
{
    if bytes.len() > 0 {
        let first = bytes[0];
        assert(first & 0x7F == first) by (bit_vector)
            requires
                first < 0x80,
        ;
        let rest = bytes.subrange(1, bytes.len() as int);
        assert forall|i: int| 0 <= i < rest.len() implies #[trigger] rest[i] < 0x80 by {
            assert(rest[i] == bytes[i + 1]);
        }
        lemma_ascii_is_text(rest);
    }
}

/// The line of an entry is text where the record is.
pub proof fn lemma_line_is_text(entry: (Seq<u8>, u64))
    requires
        valid_utf8(entry.0),
    ensures
        valid_utf8(line_of(entry)),
{
    let rest = seq![TAB] + decimal(entry.1 as nat) + seq![LINE_FEED];
    lemma_decimal_is_digits(entry.1 as nat);
    lemma_ascii_is_text(rest);
    vstd::utf8::valid_utf8_concat(entry.0, rest);
    assert(line_of(entry) =~= entry.0 + rest);
}

/// A number is written with at least one digit, and with digits only.
pub proof fn lemma_decimal_is_digits(n: nat)
    ensures
        decimal(n).len() >= 1,
        forall|i: int| 0 <= i < decimal(n).len() ==> ZERO <= #[trigger] decimal(n)[i] <= ZERO + 9,
    decreases n,
{
    if n >= 10 {
        lemma_decimal_is_digits(n / 10);
    }
}

/// The report of entries whose records are text is text.
pub proof fn lemma_report_is_text(entries: Seq<(Seq<u8>, u64)>)
    requires
        forall|i: int| 0 <= i < entries.len() ==> valid_utf8((#[trigger] entries[i]).0),
    ensures
        valid_utf8(report_of(entries)),
    decreases entries.len(),
{
    if entries.len() > 0 {
        let front = entries.drop_last();
        assert forall|i: int| 0 <= i < front.len() implies valid_utf8((#[trigger] front[i]).0) by {
            assert(front[i] == entries[i]);
        }
        lemma_report_is_text(front);
        lemma_line_is_text(entries.last());
        vstd::utf8::valid_utf8_concat(report_of(front), line_of(entries.last()));
    }
}

/// Only text is written. Whether the output ended in an error or not, what
/// was added to an output that was text leaves it text.
pub proof fn lemma_emitted_is_text(
    entries: Seq<(Seq<u8>, u64)>,
    limit: Option<usize>,
    before: Seq<u8>,
    after: Seq<u8>,
    result: Result<(), TextDecodingError>,
)
    requires
        valid_utf8(before),
        emitted(entries, limit, before, after, result),
    ensures
        valid_utf8(after),
{
    let shown = match result {
        Ok(_) => leading(limit, entries.len()) as int,
        Err(error) => error.position as int,
    };
    let written = entries.take(shown);
    assert forall|i: int| 0 <= i < written.len() implies valid_utf8((#[trigger] written[i]).0) by {
        assert(written[i] == entries[i]);
    }
    lemma_report_is_text(written);
    vstd::utf8::valid_utf8_concat(before, report_of(written));
}

} // verus!
