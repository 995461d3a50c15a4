//! Splitting a byte stream into records on line boundaries.

use vstd::prelude::*;

verus! {

/// The byte that ends a record.
pub const LINE_FEED: u8 = 0x0A;

/// The byte that is dropped with the line feed it stands before.
pub const CARRIAGE_RETURN: u8 = 0x0D;

/// How many bytes stand before the first line feed of `bytes`: all of them
/// where it holds no line feed.
pub open spec fn line_len(bytes: Seq<u8>) -> nat
    decreases bytes.len(),
{
    if bytes.len() == 0 || bytes[0] == LINE_FEED {
        0
    } else {
        1 + line_len(bytes.drop_first())
    }
}

/// A terminated line without the carriage return that stood before its line feed.
pub open spec fn without_carriage_return(line: Seq<u8>) -> Seq<u8> {
    if line.len() > 0 && line.last() == CARRIAGE_RETURN {
        line.drop_last()
    } else {
        line
    }
}

/// The records of a byte stream, in the order in which they stand in it.
///
/// A record ends at a line feed; the line feed, and a carriage return right
/// before it, are no part of the record. What follows the last line feed is a
/// record too unless it is empty, and it keeps a trailing carriage return.
pub open spec fn records_of(bytes: Seq<u8>) -> Seq<Seq<u8>>
    decreases bytes.len(),
{
    let n = line_len(bytes) as int;
    if bytes.len() == 0 {
        Seq::empty()
    } else if n >= bytes.len() {
        seq![bytes]
    } else {
        seq![without_carriage_return(bytes.take(n))] + records_of(bytes.skip(n + 1))
    }
}

/// `line_len` is the one position that no line feed precedes and at which the
/// bytes end or a line feed stands.
pub proof fn lemma_line_len(bytes: Seq<u8>, n: int)
    requires
        0 <= n <= bytes.len(),
        forall|i: int| 0 <= i < n ==> bytes[i] != LINE_FEED,
        n == bytes.len() || bytes[n] == LINE_FEED,
    ensures
        line_len(bytes) == n,
    decreases n,
{
    if n > 0 {
        lemma_line_len(bytes.drop_first(), n - 1);
    }
}

/// No line feed stands before the end of the first line, and where the line
/// ends before the bytes do, a line feed stands there.
pub proof fn lemma_line_len_holds(bytes: Seq<u8>)
    ensures
        line_len(bytes) <= bytes.len(),
        forall|i: int| 0 <= i < line_len(bytes) ==> #[trigger] bytes[i] != LINE_FEED,
        line_len(bytes) < bytes.len() ==> bytes[line_len(bytes) as int] == LINE_FEED,
    decreases bytes.len(),
{
    if bytes.len() > 0 && bytes[0] != LINE_FEED {
        let rest = bytes.drop_first();
        lemma_line_len_holds(rest);
        assert forall|i: int| 0 <= i < line_len(bytes) implies #[trigger] bytes[i]
            != LINE_FEED by {
            if i > 0 {
                assert(bytes[i] == rest[i - 1]);
            }
        }
        if line_len(bytes) < bytes.len() {
            assert(bytes[line_len(bytes) as int] == rest[line_len(rest) as int]);
        }
    }
}

/// Every record takes at least one byte of the stream.
pub proof fn lemma_records_len(bytes: Seq<u8>)
    ensures
        records_of(bytes).len() <= bytes.len(),
    decreases bytes.len(),
{
    let n = line_len(bytes) as int;
    lemma_line_len_holds(bytes);
    if bytes.len() > 0 && n < bytes.len() {
        lemma_records_len(bytes.skip(n + 1));
    }
}

/// A stream that is cut behind a line feed falls into the records of the
/// first piece followed by the records of the second.
pub proof fn lemma_records_of_concat(head: Seq<u8>, tail: Seq<u8>)
    requires
        head.len() == 0 || head.last() == LINE_FEED,
    ensures
        records_of(head + tail) == records_of(head) + records_of(tail),
    decreases head.len(),
{
    if head.len() == 0 {
        assert(head + tail =~= tail);
        assert(records_of(head) + records_of(tail) =~= records_of(tail));
    } else {
        let n = line_len(head) as int;
        lemma_line_len_holds(head);
        assert(n < head.len()) by {
            if n == head.len() {
                assert(head[head.len() - 1] != LINE_FEED);
            }
        }
        assert forall|i: int| 0 <= i < n implies (head + tail)[i] != LINE_FEED by {
            assert((head + tail)[i] == head[i]);
        }
        assert((head + tail)[n] == head[n]);
        lemma_line_len(head + tail, n);
        let rest = head.skip(n + 1);
        assert((head + tail).take(n) =~= head.take(n));
        assert((head + tail).skip(n + 1) =~= rest + tail);
        if rest.len() > 0 {
            assert(rest.last() == head.last());
        }
        lemma_records_of_concat(rest, tail);
        assert(records_of(head + tail) =~= records_of(head) + records_of(tail));
    }
}

/// A single forward pass over the records of a byte stream.
pub struct RecordReader<'a> {
    input: &'a [u8],
    pos: usize,
}

impl<'a> RecordReader<'a> {
    #[verifier::type_invariant]
    spec fn valid(&self) -> bool {
        self.pos <= self.input@.len()
    }

    /// The records that the reader has yet to hand out.
    pub closed spec fn remaining(&self) -> Seq<Seq<u8>> {
        records_of(self.input@.skip(self.pos as int))
    }

    /// A reader at the start of `input`.
    pub fn new(input: &'a [u8]) -> (reader: Self)
        ensures
            reader.remaining() == records_of(input@),
    {
        assert(input@.skip(0) =~= input@);
        RecordReader { input, pos: 0 }
    }

    /// Hands out the next record, or `None` once the stream is used up.
    pub fn next_record(&mut self) -> (record: Option<&'a [u8]>)
        ensures
            match record {
                Some(r) => old(self).remaining().len() > 0
                    && r@ == old(self).remaining().first()
                    && final(self).remaining() == old(self).remaining().drop_first(),
                None => old(self).remaining().len() == 0 && final(self).remaining().len() == 0,
            },
    {
        proof {
            use_type_invariant(&*self);
        }
        let input = self.input;
        let start = self.pos;
        let len = input.len();
        if start >= len {
            assert(input@.skip(start as int).len() == 0);
            return None;
        }
        let mut end = start;
        while end < len && input[end] != LINE_FEED
            invariant
                start <= end <= len,
                len == input@.len(),
                forall|i: int| start <= i < end ==> input@[i] != LINE_FEED,
            decreases len - end,
        {
            end = end + 1;
        }
        let ghost tail = input@.skip(start as int);
        proof {
            lemma_line_len(tail, end - start);
        }
        if end == len {
            self.pos = len;
            let record = &input[start..len];
            proof {
                assert(record@ =~= tail);
                assert(input@.skip(len as int).len() == 0);
                assert(seq![tail].drop_first() =~= Seq::<Seq<u8>>::empty());
            }
            Some(record)
        } else {
            let stop = if end > start && input[end - 1] == CARRIAGE_RETURN {
                end - 1
            } else {
                end
            };
            self.pos = end + 1;
            let record = &input[start..stop];
            proof {
                let line = tail.take(end - start);
                assert(line =~= input@.subrange(start as int, end as int));
                assert(record@ =~= without_carriage_return(line));
                assert(tail.skip(end - start + 1) =~= input@.skip(end + 1));
                assert((seq![record@] + records_of(input@.skip(end + 1))).drop_first()
                    =~= records_of(input@.skip(end + 1)));
            }
            Some(record)
        }
    }
}

} // verus!
