//! Line splitting, the first stage of the notification codec.
//!
//! The connection delivers bytes in pieces of any size. A line is complete
//! when its line feed has arrived; what follows the last line feed waits for
//! more bytes.

use vstd::prelude::*;
use crate::text::{find_from, lemma_find_from, lemma_find_from_is, unbroken, LINE_FEED};

verus! {

/// The complete lines of `stream`: the runs of bytes that a line feed ends,
/// each without its line feed, in order.
pub open spec fn lines_of(stream: Seq<u8>) -> Seq<Seq<u8>>
    decreases stream.len(),
{
    let end = find_from(stream, 0, LINE_FEED);
    if 0 <= end < stream.len() {
        seq![stream.take(end)] + lines_of(stream.skip(end + 1))
    } else {
        Seq::empty()
    }
}

/// What follows the last line feed of `stream`: the start of a line that is
/// not complete yet.
pub open spec fn remainder_of(stream: Seq<u8>) -> Seq<u8>
    decreases stream.len(),
{
    let end = find_from(stream, 0, LINE_FEED);
    if 0 <= end < stream.len() {
        remainder_of(stream.skip(end + 1))
    } else {
        stream
    }
}

/// A line feed that follows an unbroken start ends exactly that line.
pub proof fn lemma_line_ends(start: Seq<u8>, rest: Seq<u8>)
    requires
        unbroken(start),
        rest.len() > 0,
        rest[0] == LINE_FEED,
    ensures
        lines_of(start + rest) == seq![start] + lines_of(rest.skip(1)),
        remainder_of(start + rest) == remainder_of(rest.skip(1)),
{
    let stream = start + rest;
    let end = start.len() as int;
    assert(stream[end] == rest[0]);
    assert forall|i: int| 0 <= i < end implies stream[i] != LINE_FEED by {
        assert(stream[i] == start[i]);
    }
    lemma_find_from_is(stream, 0, LINE_FEED, end);
    assert(stream.take(end) =~= start);
    assert(stream.skip(end + 1) =~= rest.skip(1));
}

/// An unbroken run of bytes holds no complete line.
pub proof fn lemma_no_line(start: Seq<u8>)
    requires
        unbroken(start),
    ensures
        lines_of(start) == Seq::<Seq<u8>>::empty(),
        remainder_of(start) == start,
{
    lemma_find_from_is(start, 0, LINE_FEED, start.len() as int);
}

/// The stream that carries `lines`: each line followed by a line feed.
pub open spec fn written(lines: Seq<Seq<u8>>) -> Seq<u8>
    decreases lines.len(),
{
    if lines.len() == 0 {
        Seq::empty()
    } else {
        lines[0] + seq![LINE_FEED] + written(lines.skip(1))
    }
}

/// Cutting a stream into lines gives back the lines it was written from,
/// with nothing left over, as long as no line holds a line feed itself.
pub proof fn lemma_lines_of_written(lines: Seq<Seq<u8>>)
    requires
        forall|i: int| 0 <= i < lines.len() ==> unbroken(#[trigger] lines[i]),
    ensures
        lines_of(written(lines)) == lines,
        remainder_of(written(lines)) == Seq::<u8>::empty(),
    decreases lines.len(),
{
    if lines.len() == 0 {
        lemma_no_line(Seq::<u8>::empty());
    } else {
        let later = lines.skip(1);
        let rest = seq![LINE_FEED] + written(later);
        assert(unbroken(lines[0]));
        lemma_line_ends(lines[0], rest);
        assert(rest.skip(1) =~= written(later));
        assert(written(lines) =~= lines[0] + rest);
        assert forall|i: int| 0 <= i < later.len() implies unbroken(#[trigger] later[i]) by {
            assert(later[i] == lines[i + 1]);
        }
        lemma_lines_of_written(later);
        assert(seq![lines[0]] + later =~= lines);
    }
}

/// More bytes never change the lines that are complete already: the lines of
/// a longer stream are the lines of the shorter one, then the lines that the
/// unfinished line completes together with the new bytes.
pub proof fn lemma_lines_of_longer(stream: Seq<u8>, more: Seq<u8>)
    ensures
        lines_of(stream + more) == lines_of(stream) + lines_of(remainder_of(stream) + more),
        remainder_of(stream + more) == remainder_of(remainder_of(stream) + more),
    decreases stream.len(),
{
    let end = find_from(stream, 0, LINE_FEED);
    lemma_find_from(stream, 0, LINE_FEED);
    if end < stream.len() {
        let longer = stream + more;
        assert(longer[end] == stream[end]);
        assert forall|i: int| 0 <= i < end implies longer[i] != LINE_FEED by {
            assert(longer[i] == stream[i]);
        }
        lemma_find_from_is(longer, 0, LINE_FEED, end);
        assert(longer.take(end) =~= stream.take(end));
        assert(longer.skip(end + 1) =~= stream.skip(end + 1) + more);
        lemma_lines_of_longer(stream.skip(end + 1), more);
        let rest = stream.skip(end + 1);
        assert(seq![stream.take(end)] + (lines_of(rest) + lines_of(remainder_of(rest) + more))
            =~= (seq![stream.take(end)] + lines_of(rest)) + lines_of(remainder_of(rest) + more));
    } else {
        assert(lines_of(stream) + lines_of(stream + more) =~= lines_of(stream + more));
    }
}

/// The lines of `lines` as plain byte sequences.
pub open spec fn texts(lines: Seq<Vec<u8>>) -> Seq<Seq<u8>> {
    Seq::new(lines.len(), |i: int| lines[i]@)
}

/// The bytes of the line that is not complete yet.
pub struct LineBuffer {
    partial: Vec<u8>,
}

impl LineBuffer {
    /// The bytes received since the last line feed.
    pub closed spec fn partial(&self) -> Seq<u8> {
        self.partial@
    }

    /// The unfinished line holds no line feed.
    pub closed spec fn wf(&self) -> bool {
        unbroken(self.partial@)
    }

    /// A buffer that has received nothing.
    pub fn new() -> (buffer: LineBuffer)
        ensures
            buffer.wf(),
            buffer.partial() == Seq::<u8>::empty(),
    {
        LineBuffer { partial: Vec::new() }
    }

    /// Takes the next bytes of the stream and returns the lines they
    /// complete, each without its line feed, in order. The lines are those of
    /// the unfinished line followed by `bytes`; what follows the last line
    /// feed is the new unfinished line.
    pub fn push(&mut self, bytes: &[u8]) -> (lines: Vec<Vec<u8>>)
        requires
            old(self).wf(),
        ensures
            final(self).wf(),
            texts(lines@) == lines_of(old(self).partial() + bytes@),
            final(self).partial() == remainder_of(old(self).partial() + bytes@),
    {
        let ghost stream = self.partial@ + bytes@;
        let mut lines: Vec<Vec<u8>> = Vec::new();
        let mut i: usize = 0;
        assert(bytes@.skip(0) =~= bytes@);
        assert(texts(lines@) + lines_of(self.partial@ + bytes@.skip(0)) =~= lines_of(stream));
        while i < bytes.len()
            invariant
                i <= bytes.len(),
                unbroken(self.partial@),
                lines_of(stream) == texts(lines@) + lines_of(
                    self.partial@ + bytes@.skip(i as int),
                ),
                remainder_of(stream) == remainder_of(self.partial@ + bytes@.skip(i as int)),
            decreases bytes.len() - i,
        {
            let ghost rest = bytes@.skip(i as int);
            let ghost start = self.partial@;
            let ghost done = texts(lines@);
            let b = bytes[i];
            assert(rest[0] == b);
            assert(rest.skip(1) =~= bytes@.skip(i + 1));
            if b == LINE_FEED {
                let mut line: Vec<u8> = Vec::new();
                core::mem::swap(&mut line, &mut self.partial);
                lines.push(line);
                proof {
                    lemma_line_ends(start, rest);
                    assert(self.partial@ + bytes@.skip(i + 1) =~= bytes@.skip(i + 1));
                    assert(texts(lines@) =~= done.push(start));
                    assert(done + (seq![start] + lines_of(rest.skip(1))) =~= texts(lines@)
                        + lines_of(self.partial@ + bytes@.skip(i + 1)));
                }
            } else {
                self.partial.push(b);
                proof {
                    assert(self.partial@ + bytes@.skip(i + 1) =~= start + rest);
                }
            }
            i += 1;
        }
        proof {
            assert(self.partial@ + bytes@.skip(i as int) =~= self.partial@);
            lemma_no_line(self.partial@);
            assert(texts(lines@) + Seq::<Seq<u8>>::empty() =~= texts(lines@));
        }
        lines
    }

    /// Drops the unfinished line.
    pub fn clear(&mut self)
        ensures
            final(self).wf(),
            final(self).partial() == Seq::<u8>::empty(),
    {
        self.partial.clear();
    }
}

} // verus!
