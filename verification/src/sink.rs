//! The buffered point sink.
//!
//! A [`PointBufWriter`] turns a stream of already-formatted coordinate
//! texts into the output byte stream, one `X Y` line per point, batching
//! bytes in a bounded buffer so that the surrounding application can hand
//! them to its byte sink in large chunks. The writer itself performs no
//! input/output: whenever the buffer must be drained — because a point
//! would not fit, or because the run ends — the full chunk is returned to
//! the caller, who forwards it to the real sink.

use vstd::prelude::*;

verus! {

/// Number of bytes the output buffer may hold.
pub const BUFFER_SIZE: usize = 16384;

/// Largest coordinate text the writer accepts, a conservative bound on the
/// shortest round-tripping decimal form of a double-precision number.
pub const MAX_COORD_BYTES: usize = 32;

/// Free space demanded before a point is appended: two coordinates, one
/// separating space, one terminating newline.
pub const POINT_RESERVE: usize = 66;

/// The byte separating the two coordinates of a line: an ASCII space.
pub const SPACE_BYTE: u8 = 32;

/// The byte terminating each line: an ASCII line feed.
pub const NEWLINE_BYTE: u8 = 10;

/// The output line for one point whose coordinates are formatted as
/// `x` and `y`: the two texts separated by a space and closed by a newline.
pub open spec fn line_of(x: Seq<u8>, y: Seq<u8>) -> Seq<u8> {
    x + seq![SPACE_BYTE] + y + seq![NEWLINE_BYTE]
}

/// The output text for a whole list of points: their lines, one after
/// another, in order.
pub open spec fn output_of(points: Seq<(Seq<u8>, Seq<u8>)>) -> Seq<u8>
    decreases points.len(),
{
    if points.len() == 0 {
        Seq::empty()
    } else {
        output_of(points.drop_last()) + line_of(points.last().0, points.last().1)
    }
}

/// How often the byte `b` occurs in `s`.
pub open spec fn count_byte(s: Seq<u8>, b: u8) -> nat
    decreases s.len(),
{
    if s.len() == 0 {
        0
    } else {
        count_byte(s.drop_last(), b) + (if s.last() == b {
            1nat
        } else {
            0nat
        })
    }
}

/// True when the byte `b` does not occur in `s`.
pub open spec fn free_of(s: Seq<u8>, b: u8) -> bool {
    forall|i: int| 0 <= i < s.len() ==> s[i] != b
}

/// Occurrences add up over concatenation.
proof fn lemma_count_byte_add(s: Seq<u8>, t: Seq<u8>, b: u8)
    ensures
        count_byte(s + t, b) == count_byte(s, b) + count_byte(t, b),
    decreases t.len(),
{
    if t.len() == 0 {
        assert(s + t =~= s);
    } else {
        assert((s + t).drop_last() =~= s + t.drop_last());
        assert((s + t).last() == t.last());
        lemma_count_byte_add(s, t.drop_last(), b);
    }
}

/// A text without the byte holds it zero times.
proof fn lemma_count_byte_free(s: Seq<u8>, b: u8)
    requires
        free_of(s, b),
    ensures
        count_byte(s, b) == 0,
    decreases s.len(),
{
    if s.len() > 0 {
        lemma_count_byte_free(s.drop_last(), b);
    }
}

/// The line of a point whose coordinate texts hold no newline holds
/// exactly one newline: the one that ends it.
proof fn lemma_line_one_newline(x: Seq<u8>, y: Seq<u8>)
    requires
        free_of(x, NEWLINE_BYTE),
        free_of(y, NEWLINE_BYTE),
    ensures
        count_byte(line_of(x, y), NEWLINE_BYTE) == 1,
{
    lemma_count_byte_free(x, NEWLINE_BYTE);
    lemma_count_byte_free(y, NEWLINE_BYTE);
    assert(count_byte(Seq::<u8>::empty(), NEWLINE_BYTE) == 0);
    assert(seq![SPACE_BYTE].drop_last() =~= Seq::<u8>::empty());
    assert(seq![SPACE_BYTE].last() == SPACE_BYTE);
    assert(count_byte(seq![SPACE_BYTE], NEWLINE_BYTE) == 0);
    assert(seq![NEWLINE_BYTE].drop_last() =~= Seq::<u8>::empty());
    assert(seq![NEWLINE_BYTE].last() == NEWLINE_BYTE);
    assert(count_byte(seq![NEWLINE_BYTE], NEWLINE_BYTE) == 1);
    lemma_count_byte_add(x, seq![SPACE_BYTE], NEWLINE_BYTE);
    lemma_count_byte_add(x + seq![SPACE_BYTE], y, NEWLINE_BYTE);
    lemma_count_byte_add(x + seq![SPACE_BYTE] + y, seq![NEWLINE_BYTE], NEWLINE_BYTE);
}

/// With no resampling the converter writes one point per source vertex, so
/// the line count of the output must equal the vertex count. This is the
/// sink's share of that promise: the output text for a list of points —
/// what a writer's `emitted` grows to when each point is written once —
/// holds exactly one newline, and so exactly one line, per point, provided
/// the coordinate texts themselves hold no newline.
pub proof fn lemma_one_line_per_point(points: Seq<(Seq<u8>, Seq<u8>)>)
    requires
        forall|i: int|
            0 <= i < points.len() ==> free_of(#[trigger] points[i].0, NEWLINE_BYTE) && free_of(
                points[i].1,
                NEWLINE_BYTE,
            ),
    ensures
        count_byte(output_of(points), NEWLINE_BYTE) == points.len(),
    decreases points.len(),
{
    if points.len() > 0 {
        let rest = points.drop_last();
        assert(forall|i: int|
            0 <= i < rest.len() ==> free_of(#[trigger] rest[i].0, NEWLINE_BYTE) && free_of(
                rest[i].1,
                NEWLINE_BYTE,
            ));
        lemma_one_line_per_point(rest);
        lemma_line_one_newline(points.last().0, points.last().1);
        lemma_count_byte_add(
            output_of(rest),
            line_of(points.last().0, points.last().1),
            NEWLINE_BYTE,
        );
    }
}

/// A well-formed writer's output always holds exactly one line per point
/// written, as long as every coordinate text was newline-free — so with
/// resampling disabled, where the converter writes one point per source
/// vertex, the line count of the output equals the vertex count.
pub proof fn lemma_writer_one_line_per_point(w: PointBufWriter)
    requires
        w.wf(),
        forall|i: int|
            0 <= i < w.written().len() ==> free_of(#[trigger] w.written()[i].0, NEWLINE_BYTE)
                && free_of(w.written()[i].1, NEWLINE_BYTE),
    ensures
        count_byte(w.emitted(), NEWLINE_BYTE) == w.written().len(),
{
    lemma_one_line_per_point(w.written());
}

/// Buffers formatted points and hands full chunks back for flushing.
pub struct PointBufWriter {
    /// Bytes accepted but not yet handed out; never longer than
    /// [`BUFFER_SIZE`].
    buf: Vec<u8>,
    /// Everything already handed out for flushing, oldest first.
    past: Ghost<Seq<u8>>,
    /// Every point accepted so far, as its pair of coordinate texts.
    log: Ghost<Seq<(Seq<u8>, Seq<u8>)>>,
}

impl PointBufWriter {
    /// The bytes accepted but not yet handed out for flushing.
    pub closed spec fn pending(self) -> Seq<u8> {
        self.buf@
    }

    /// The bytes already handed out for flushing, in order.
    pub closed spec fn flushed(self) -> Seq<u8> {
        self.past@
    }

    /// The whole output so far: flushed chunks followed by pending bytes.
    pub open spec fn emitted(self) -> Seq<u8> {
        self.flushed() + self.pending()
    }

    /// The points accepted so far, in order.
    pub closed spec fn written(self) -> Seq<(Seq<u8>, Seq<u8>)> {
        self.log@
    }

    /// The buffer never exceeds its fixed capacity, and the output is
    /// exactly the lines of the points written so far.
    pub closed spec fn wf(self) -> bool {
        self.buf@.len() <= BUFFER_SIZE && self.emitted() == output_of(self.written())
    }

    /// A fresh writer with an empty buffer and nothing flushed.
    pub fn new() -> (w: PointBufWriter)
        ensures
            w.wf(),
            w.pending() == Seq::<u8>::empty(),
            w.flushed() == Seq::<u8>::empty(),
            w.emitted() == Seq::<u8>::empty(),
            w.written() == Seq::<(Seq<u8>, Seq<u8>)>::empty(),
    {
        let w = PointBufWriter {
            buf: Vec::with_capacity(BUFFER_SIZE),
            past: Ghost(Seq::empty()),
            log: Ghost(Seq::empty()),
        };
        proof {
            assert(w.emitted() =~= Seq::<u8>::empty());
        }
        w
    }

    /// Appends the line for one point. When the buffer has less than
    /// [`POINT_RESERVE`] bytes free, its content is first handed back as a
    /// chunk to flush, and the new line starts an empty buffer; otherwise
    /// nothing is handed back. Either way the output grows by exactly the
    /// point's line.
    pub fn write(&mut self, x: &[u8], y: &[u8]) -> (chunk: Option<Vec<u8>>)
        requires
            old(self).wf(),
            x@.len() <= MAX_COORD_BYTES,
            y@.len() <= MAX_COORD_BYTES,
        ensures
            final(self).wf(),
            final(self).emitted() == old(self).emitted() + line_of(x@, y@),
            final(self).written() == old(self).written().push((x@, y@)),
            match chunk {
                Some(b) => {
                    &&& BUFFER_SIZE - old(self).pending().len() < POINT_RESERVE
                    &&& b@ == old(self).pending()
                    &&& final(self).flushed() == old(self).flushed() + b@
                    &&& final(self).pending() == line_of(x@, y@)
                },
                None => {
                    &&& BUFFER_SIZE - old(self).pending().len() >= POINT_RESERVE
                    &&& final(self).flushed() == old(self).flushed()
                    &&& final(self).pending() == old(self).pending() + line_of(x@, y@)
                },
            },
    {
        let mut chunk: Option<Vec<u8>> = None;
        if BUFFER_SIZE - self.buf.len() < POINT_RESERVE {
            let mut full: Vec<u8> = Vec::new();
            core::mem::swap(&mut full, &mut self.buf);
            self.past = Ghost(self.past@ + full@);
            chunk = Some(full);
        }
        let ghost before = self.buf@;
        push_bytes(&mut self.buf, x);
        self.buf.push(SPACE_BYTE);
        push_bytes(&mut self.buf, y);
        self.buf.push(NEWLINE_BYTE);
        self.log = Ghost(self.log@.push((x@, y@)));
        proof {
            assert(self.buf@ =~= before + line_of(x@, y@));
            assert(self.emitted() =~= old(self).emitted() + line_of(x@, y@));
            assert(self.log@.drop_last() =~= old(self).log@);
            assert(self.emitted() =~= output_of(self.written()));
        }
        chunk
    }

    /// Ends the run: hands back whatever is still buffered, or nothing when
    /// the buffer is already empty. Afterwards the buffer is empty and the
    /// output is unchanged, so a second call returns nothing and changes
    /// nothing — finalization is idempotent.
    pub fn finish(&mut self) -> (chunk: Option<Vec<u8>>)
        requires
            old(self).wf(),
        ensures
            final(self).wf(),
            final(self).emitted() == old(self).emitted(),
            final(self).pending() == Seq::<u8>::empty(),
            final(self).flushed() == old(self).emitted(),
            final(self).written() == old(self).written(),
            match chunk {
                Some(b) => b@ == old(self).pending() && b@.len() > 0,
                None => old(self).pending().len() == 0,
            },
    {
        if self.buf.len() > 0 {
            let mut full: Vec<u8> = Vec::new();
            core::mem::swap(&mut full, &mut self.buf);
            self.past = Ghost(self.past@ + full@);
            proof {
                assert(self.pending() =~= Seq::<u8>::empty());
                assert(self.emitted() =~= old(self).emitted());
            }
            Some(full)
        } else {
            proof {
                assert(self.pending() =~= Seq::<u8>::empty());
                assert(self.flushed() =~= old(self).emitted());
            }
            None
        }
    }

    /// How many bytes are buffered and not yet handed out.
    pub fn pending_len(&self) -> (n: usize)
        ensures
            n == self.pending().len(),
    {
        self.buf.len()
    }
}

/// Appends every byte of `b` to `buf`, in order.
fn push_bytes(buf: &mut Vec<u8>, b: &[u8])
    requires
        old(buf)@.len() + b@.len() <= usize::MAX,
    ensures
        final(buf)@ == old(buf)@ + b@,
{
    let ghost start = buf@;
    let mut i: usize = 0;
    while i < b.len()
        invariant
            i <= b@.len(),
            start.len() + b@.len() <= usize::MAX,
            buf@ == start + b@.subrange(0, i as int),
        decreases b@.len() - i,
    {
        let byte = b[i];
        buf.push(byte);
        proof {
            assert(buf@ =~= start + b@.subrange(0, i + 1 as int));
        }
        i = i + 1;
    }
    proof {
        assert(buf@ =~= start + b@);
    }
}

} // verus!
