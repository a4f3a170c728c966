//! The division of the buffer into chunks for workers.
//!
//! Each worker but one walks over the lines that lie within a chunk of its own.
//! The one worker left walks over the lines that cross from one chunk into the
//! next.

use crate::bytes::{first_index, last_index, lemma_first_index, lemma_last_index, NL};
use crate::input::{lines_from, Input, InputLine, LineIter};
use vstd::prelude::*;

verus! {

/// `p`, doubled until it is `n` at the least.
pub open spec fn doubled(p: nat, n: nat) -> nat
    decreases
            (if p < n {
                n - p
            } else {
                0
            }),
{
    if p == 0 || p >= n {
        p
    } else {
        doubled(2 * p, n)
    }
}

/// The least power of two that is `n` at the least.
pub open spec fn next_pow2(n: nat) -> nat {
    doubled(1, n)
}

/// `a` divided by `b`, rounded up.
pub open spec fn ceil_div(a: int, b: int) -> int {
    (a + b - 1) / b
}

/// The least multiple of `m` that is `x` at the least.
pub open spec fn round_up(x: int, m: int) -> int {
    ceil_div(x, m) * m
}

/// Computes the least power of two that is `n` at the least.
pub fn next_power_of_two(n: usize) -> (p: usize)
    requires
        n <= usize::MAX / 2 + 1,
    ensures
        p == next_pow2(n as nat),
        p >= 1,
        p >= n,
{
    let mut p: usize = 1;
    while p < n
        invariant
            1 <= p,
            n <= usize::MAX / 2 + 1,
            doubled(p as nat, n as nat) == next_pow2(n as nat),
        decreases
                (if p < n {
                    n - p
                } else {
                    0
                }),
    {
        p = p * 2;
    }
    p
}

/// A multiple of `m` that is `x` at the least lies less than `m` above `x`.
pub proof fn lemma_round_up(x: int, m: int)
    requires
        0 <= x,
        0 < m,
    ensures
        x <= round_up(x, m) < x + m,
        round_up(x, m) % m == 0,
        x > 0 ==> round_up(x, m) >= m,
{
    let q = (x + m - 1) / m;
    assert(q * m <= x + m - 1 && x + m - 1 < q * m + m) by (nonlinear_arith)
        requires
            q == (x + m - 1) / m,
            0 < m,
            0 <= x,
    ;
    assert((q * m) % m == 0) by (nonlinear_arith)
        requires
            0 < m,
    ;
    if x > 0 {
        assert(q >= 1) by (nonlinear_arith)
            requires
                q == (x + m - 1) / m,
                0 < m,
                0 < x,
        ;
        assert(q * m >= m) by (nonlinear_arith)
            requires
                q >= 1,
                0 < m,
        ;
    }
}

/// The size of the chunks for `count` workers and a buffer of `length` bytes: what
/// each worker has to take for all of them to cover the buffer, rounded up to a
/// multiple of the least power of two that is `base` at the least.
pub fn best_chunks(count: usize, base: usize, length: usize) -> (size: usize)
    requires
        count >= 1,
        base <= usize::MAX / 2 + 1,
        length + next_pow2(base as nat) <= usize::MAX,
    ensures
        size == round_up(ceil_div(length as int, count as int), next_pow2(base as nat) as int),
{
    let base_2: usize = next_power_of_two(base);
    // The least amount of work for each worker.
    let per_worker: usize = length / count + if length % count == 0 {
        0
    } else {
        1
    };
    assert(per_worker == ceil_div(length as int, count as int) && per_worker <= length)
        by (nonlinear_arith)
        requires
            count >= 1,
            per_worker == length / count + if length % count == 0 {
                0int
            } else {
                1int
            },
    ;
    let full: usize = per_worker / base_2 + if per_worker % base_2 == 0 {
        0
    } else {
        1
    };
    assert(full == ceil_div(per_worker as int, base_2 as int)) by (nonlinear_arith)
        requires
            base_2 >= 1,
            full == per_worker / base_2 + if per_worker % base_2 == 0 {
                0int
            } else {
                1int
            },
    ;
    proof {
        lemma_round_up(per_worker as int, base_2 as int);
    }
    full * base_2
}

/// The size of the chunks that the buffer is cut into.
///
/// The unit is the least power of two that is the size asked for at the least,
/// or the page size where no size is asked for. One unit is the chunk size where
/// the workers cover the buffer with a unit each. Where they do not, it is what
/// each worker has to take, rounded up to a multiple of the unit.
pub open spec fn chunk_size_for(count: int, size_hint: int, page_size: int, length: int) -> int {
    let base = if size_hint == 0 {
        page_size
    } else {
        size_hint
    };
    let unit = next_pow2(base as nat) as int;
    if (count - 1) * unit >= length {
        unit
    } else {
        round_up(ceil_div(length, count - 1), unit)
    }
}

/// Walks over the lines that cross from one chunk into the next.
pub struct BreakChunk<'a> {
    /// What is left of the buffer.
    pub full_buffer: &'a [u8],
    /// The offset in the buffer of what is left of it.
    pub base_offset: usize,
    /// The size of a chunk.
    pub chunk_size: usize,
}

/// The lines that cross the cuts of `buf` into chunks of `chunk` bytes, each as
/// the pair of its first index and the index behind its last, counted from `base`.
///
/// The line that crosses a cut runs from behind the last newline of the chunk
/// before the cut through the first newline behind the cut. Where either is not
/// there, neither this cut nor any further one has a line.
pub open spec fn breaks_from(buf: Seq<u8>, base: int, chunk: int) -> Seq<(int, int)>
    decreases buf.len(),
{
    if chunk <= 0 || buf.len() < chunk {
        Seq::empty()
    } else {
        match (last_index(buf.take(chunk), NL), first_index(buf.skip(chunk), NL, NL)) {
            (Some(s), Some(e)) => seq![(base + s + 1, base + chunk + e + 1)] + breaks_from(
                buf.skip(chunk),
                base + chunk,
                chunk,
            ),
            _ => Seq::empty(),
        }
    }
}

impl<'a> BreakChunk<'a> {
    /// The offsets of what is left fit a number.
    pub open spec fn wf(self) -> bool {
        self.base_offset + self.full_buffer@.len() <= usize::MAX
    }

    /// The lines that are still to come, by their indices in the buffer.
    pub open spec fn remaining(self) -> Seq<(int, int)> {
        breaks_from(self.full_buffer@, self.base_offset as int, self.chunk_size as int)
    }

    /// `line` is the part of what is left of the buffer that lies between the two
    /// indices of `span`.
    pub open spec fn yields(self, line: InputLine<'a>, span: (int, int)) -> bool {
        &&& self.base_offset <= span.0 < span.1 <= self.base_offset + self.full_buffer@.len()
        &&& line.offset == span.0
        &&& line.data@ == self.full_buffer@.subrange(
            span.0 - self.base_offset,
            span.1 - self.base_offset,
        )
    }

    /// The next line that crosses a cut, or `None` when no further cut has one.
    pub fn next(&mut self) -> (line: Option<InputLine<'a>>)
        requires
            old(self).wf(),
        ensures
            final(self).wf(),
            final(self).chunk_size == old(self).chunk_size,
            match line {
                Some(l) => old(self).remaining().len() > 0 && old(self).yields(
                    l,
                    old(self).remaining()[0],
                ) && final(self).remaining() == old(self).remaining().skip(1)
                    && final(self).full_buffer@ == old(self).full_buffer@.skip(
                    old(self).chunk_size as int,
                ) && final(self).base_offset == old(self).base_offset + old(self).chunk_size,
                None => old(self).remaining().len() == 0 && *final(self) == *old(self),
            },
    {
        let buffer = self.full_buffer;
        let n: usize = buffer.len();
        let size: usize = self.chunk_size;
        if n < size || size == 0 {
            return None;
        }
        proof {
            lemma_last_index(buffer@.take(size as int), NL);
            lemma_first_index(buffer@.skip(size as int), NL, NL);
        }
        let prev = &buffer[0..size];
        let rest = &buffer[size..n];
        let start: usize = match memchr::memrchr(NL, prev) {
            Some(at) => at + 1,
            None => {
                return None;
            },
        };
        let end: usize = match memchr::memchr(NL, rest) {
            Some(at) => at + size,
            None => {
                return None;
            },
        };
        let broken_line = &buffer[start..end + 1];
        let offset: usize = self.base_offset + start;
        self.full_buffer = rest;
        self.base_offset = self.base_offset + size;
        proof {
            let all = breaks_from(buffer@, old(self).base_offset as int, size as int);
            assert(all.skip(1) =~= self.remaining());
        }
        Some(InputLine { offset, data: broken_line })
    }
}

/// The spans, moved on by `by`.
pub open spec fn moved(spans: Seq<(int, int)>, by: int) -> Seq<(int, int)> {
    spans.map_values(|span: (int, int)| (by + span.0, by + span.1))
}

/// One of the iterators that the buffer is divided among.
pub enum Chunk<'a> {
    /// Walks over the lines within a chunk.
    Lines(LineIter<'a>),
    /// Walks over the lines that cross from one chunk into the next.
    Breaks(BreakChunk<'a>),
}

impl<'a> Chunk<'a> {
    /// The iterator is as its kind needs it.
    pub open spec fn wf(self) -> bool {
        match self {
            Chunk::Lines(lines) => lines.wf(),
            Chunk::Breaks(breaks) => breaks.wf(),
        }
    }

    /// The lines that are still to come, by their indices in the buffer.
    pub open spec fn remaining(self) -> Seq<(int, int)> {
        match self {
            Chunk::Lines(lines) => moved(lines.remaining(), lines.base as int),
            Chunk::Breaks(breaks) => breaks.remaining(),
        }
    }

    /// The iterator walks over the bytes `data`: what it holds of them is where
    /// it says.
    pub open spec fn reads(self, data: Seq<u8>) -> bool {
        match self {
            Chunk::Lines(lines) => lines.base + lines.chunk@.len() <= data.len() && lines.chunk@
                == data.subrange(lines.base as int, lines.base + lines.chunk@.len()),
            Chunk::Breaks(breaks) => breaks.base_offset <= data.len() && breaks.full_buffer@
                == data.skip(breaks.base_offset as int),
        }
    }

    /// `line` is the part of `data` between the two indices of `span`.
    pub open spec fn is_line(line: InputLine<'a>, data: Seq<u8>, span: (int, int)) -> bool {
        &&& 0 <= span.0 < span.1 <= data.len()
        &&& line.offset == span.0
        &&& line.data@ == data.subrange(span.0, span.1)
    }

    /// The next line, or `None` when there is no further line.
    pub fn next(&mut self) -> (line: Option<InputLine<'a>>)
        requires
            old(self).wf(),
        ensures
            final(self).wf(),
            match line {
                Some(l) => old(self).remaining().len() > 0 && final(self).remaining() == old(
                    self,
                ).remaining().skip(1),
                None => old(self).remaining().len() == 0 && final(self).remaining().len() == 0,
            },
            forall|data: Seq<u8>| #[trigger]
                old(self).reads(data) ==> final(self).reads(data) && (line matches Some(l)
                    ==> Self::is_line(l, data, old(self).remaining()[0])),
    {
        match self {
            Chunk::Lines(lines) => {
                let ghost before = *lines;
                let line = lines.next();
                proof {
                    if line is Some {
                        assert(moved(before.remaining().skip(1), before.base as int) =~= moved(
                            before.remaining(),
                            before.base as int,
                        ).skip(1));
                        let span = before.remaining()[0];
                        assert forall|data: Seq<u8>| #[trigger]
                            Chunk::Lines(before).reads(data) implies Self::is_line(
                            line.unwrap(),
                            data,
                            moved(before.remaining(), before.base as int)[0],
                        ) by {
                            assert(data.subrange(
                                before.base as int,
                                before.base + before.chunk@.len(),
                            ).subrange(span.0, span.1) =~= data.subrange(
                                before.base + span.0,
                                before.base + span.1,
                            ));
                        }
                    }
                }
                line
            },
            Chunk::Breaks(breaks) => {
                let ghost before = *breaks;
                let line = breaks.next();
                proof {
                    if line is Some {
                        let span = before.remaining()[0];
                        assert forall|data: Seq<u8>| #[trigger]
                            Chunk::Breaks(before).reads(data) implies Chunk::Breaks(*breaks).reads(
                            data,
                        ) && Self::is_line(line.unwrap(), data, span) by {
                            assert(data.skip(before.base_offset as int).skip(
                                before.chunk_size as int,
                            ) =~= data.skip(before.base_offset + before.chunk_size));
                            assert(data.skip(before.base_offset as int).subrange(
                                span.0 - before.base_offset,
                                span.1 - before.base_offset,
                            ) =~= data.subrange(span.0, span.1));
                        }
                    }
                }
                line
            },
        }
    }
}


/// The lesser of two numbers.
pub open spec fn least(a: int, b: int) -> int {
    if a < b {
        a
    } else {
        b
    }
}

/// `chunk` is the iterator over the lines within chunk `i` of the buffer, cut
/// into chunks of `size` bytes.
///
/// The first line of every chunk but the first is passed over: it belongs to the
/// iterator over the lines that cross the cuts. What follows the last newline of
/// the buffer is a line of the last chunk.
pub open spec fn is_body(chunk: Chunk<'_>, input: Input<'_>, i: int, size: int) -> bool {
    &&& chunk matches Chunk::Lines(lines)
    &&& lines.base == i * size
    &&& lines.pos == 0
    &&& lines.skip_first == (i > 0)
    &&& lines.tail == ((i + 1) * size >= input@.len())
    &&& lines.chunk@ == input@.subrange(i * size, least((i + 1) * size, input@.len() as int))
}

/// `chunks` are the iterators that the buffer is divided among for `count`
/// workers.
///
/// Fewer than three workers get one iterator over all lines. Three or more get
/// one iterator for each chunk of the buffer, and behind these the iterator over
/// the lines that cross the cuts.
pub open spec fn divided(
    input: Input<'_>,
    count: int,
    size_hint: int,
    page_size: int,
    chunks: Seq<Chunk<'_>>,
) -> bool {
    if count < 3 {
        &&& chunks.len() == 1
        &&& chunks[0] matches Chunk::Lines(lines)
        &&& lines == (LineIter {
            chunk: input.data,
            base: 0,
            pos: 0,
            skip_first: false,
            tail: true,
        })
    } else {
        let size = chunk_size_for(count, size_hint, page_size, input@.len() as int);
        let n = ceil_div(input@.len() as int, size);
        &&& size > 0
        &&& chunks.len() == n + 1
        &&& forall|i: int| 0 <= i < n ==> is_body(#[trigger] chunks[i], input, i, size)
        &&& chunks[n] matches Chunk::Breaks(breaks)
        &&& breaks.full_buffer == input.data
        &&& breaks.base_offset == 0
        &&& breaks.chunk_size == size
    }
}

impl<'a> Input<'a> {
    /// Divides the buffer among `count` workers.
    ///
    /// `size_hint` is the size asked for the chunks, and 0 where the page size of
    /// the machine, `page_size`, is to be taken.
    pub fn divide_chunks(&self, count: usize, size_hint: usize, page_size: usize) -> (chunks: Vec<
        Chunk<'a>,
    >)
        requires
            count >= 3 ==> self@.len() <= isize::MAX,
            count >= 3 && size_hint == 0 ==> page_size <= usize::MAX / 2 + 1,
            count >= 3 ==> size_hint <= usize::MAX / 2 + 1,
        ensures
            divided(*self, count as int, size_hint as int, page_size as int, chunks@),
            forall|i: int| 0 <= i < chunks@.len() ==> (#[trigger] chunks@[i]).wf(),
            forall|i: int| 0 <= i < chunks@.len() ==> (#[trigger] chunks@[i]).reads(self@),
    {
        let data = self.data;
        let len: usize = data.len();
        let mut chunks: Vec<Chunk<'a>> = Vec::new();
        if count < 3 {
            // One or two workers cannot divide the work: one of them would have to
            // take the lines that cross the cuts.
            chunks.push(Chunk::Lines(LineIter::new(data, 0, false, true)));
            assert(self@.subrange(0, len as int) =~= self@);
            return chunks;
        }
        let base: usize = if size_hint == 0 {
            page_size
        } else {
            size_hint
        };
        let workers: usize = count - 1;
        let unit: usize = next_power_of_two(base);
        let covered: bool = match workers.checked_mul(unit) {
            Some(total) => total >= len,
            None => true,
        };
        let size: usize = if covered {
            unit
        } else {
            proof {
                assert(unit < len) by (nonlinear_arith)
                    requires
                        workers * unit < len,
                        workers >= 2,
                        unit >= 1,
                ;
            }
            let size = best_chunks(workers, base, len);
            proof {
                assert(ceil_div(len as int, workers as int) >= 1) by (nonlinear_arith)
                    requires
                        len >= 1,
                        workers >= 1,
                ;
                lemma_round_up(ceil_div(len as int, workers as int), unit as int);
            }
            size
        };
        assert(size == chunk_size_for(count as int, size_hint as int, page_size as int,
            len as int));
        let mut start: usize = 0;
        let mut first: bool = true;
        let ghost mut i: int = 0;
        while start < len
            invariant
                data == self.data,
                len == self@.len(),
                size > 0,
                i >= 0,
                start == least(i * size, len as int),
                first == (i == 0),
                i > 0 ==> (i - 1) * size < len,
                chunks@.len() == i,
                forall|q: int| 0 <= q < i ==> is_body(#[trigger] chunks@[q], *self, q, size as int),
                forall|q: int| 0 <= q < i ==> (#[trigger] chunks@[q]).wf(),
                forall|q: int| 0 <= q < i ==> (#[trigger] chunks@[q]).reads(self@),
            decreases len - start,
        {
            let end: usize = if len - start <= size {
                len
            } else {
                start + size
            };
            proof {
                assert((i + 1) * size == i * size + size) by (nonlinear_arith);
                assert(end == least((i + 1) * size, len as int));
            }
            let lines = LineIter::new(&data[start..end], start, !first, end == len);
            chunks.push(Chunk::Lines(lines));
            first = false;
            start = end;
            proof {
                i = i + 1;
            }
        }
        proof {
            assert(i == ceil_div(len as int, size as int)) by (nonlinear_arith)
                requires
                    size > 0,
                    i >= 0,
                    i * size >= len,
                    i > 0 ==> (i - 1) * size < len,
                    len >= 0,
            ;
        }
        // The last iterator takes the lines that cross the cuts.
        chunks.push(Chunk::Breaks(BreakChunk { full_buffer: data, base_offset: 0,
            chunk_size: size }));
        assert(self@.skip(0) =~= self@);
        chunks
    }
}


/// There are no more lines from `pos` on than bytes.
pub proof fn lemma_lines_count(data: Seq<u8>, pos: int, tail: bool)
    requires
        0 <= pos <= data.len(),
    ensures
        lines_from(data, pos, tail).len() <= data.len() - pos,
    decreases data.len() - pos,
{
    if pos < data.len() {
        lemma_first_index(data.skip(pos), NL, NL);
        match first_index(data.skip(pos), NL, NL) {
            Some(i) => {
                lemma_lines_count(data, pos + i + 1, tail);
            },
            None => {},
        }
    }
}

/// There are no more lines that cross a cut than bytes.
pub proof fn lemma_breaks_count(buf: Seq<u8>, base: int, chunk: int)
    ensures
        breaks_from(buf, base, chunk).len() <= buf.len(),
    decreases buf.len(),
{
    if chunk > 0 && buf.len() >= chunk {
        lemma_breaks_count(buf.skip(chunk), base + chunk, chunk);
    }
}

impl<'a> Chunk<'a> {
    /// There are no more lines to come than a number can count.
    pub proof fn lemma_count_fits(self)
        requires
            self.wf(),
        ensures
            self.remaining().len() <= usize::MAX,
    {
        match self {
            Chunk::Lines(lines) => {
                lemma_lines_count(lines.chunk@, lines.pos as int, lines.tail);
            },
            Chunk::Breaks(breaks) => {
                lemma_breaks_count(
                    breaks.full_buffer@,
                    breaks.base_offset as int,
                    breaks.chunk_size as int,
                );
            },
        }
    }

    /// Walks over all lines that are still to come and counts them.
    pub fn count(&mut self) -> (n: usize)
        requires
            old(self).wf(),
        ensures
            final(self).wf(),
            n == old(self).remaining().len(),
            final(self).remaining().len() == 0,
    {
        let ghost all = self.remaining();
        let mut n: usize = 0;
        proof {
            self.lemma_count_fits();
            assert(all.skip(0) =~= all);
        }
        loop
            invariant
                self.wf(),
                all.len() <= usize::MAX,
                n <= all.len(),
                self.remaining() == all.skip(n as int),
            ensures
                n == all.len(),
                self.wf(),
                self.remaining().len() == 0,
            decreases all.len() - n,
        {
            match self.next() {
                Some(_) => {
                    assert(all.skip(n as int).skip(1) =~= all.skip(n + 1));
                    n += 1;
                },
                None => {
                    break ;
                },
            }
        }
        n
    }
}

/// The number of lines of each of the iterators, in their order.
pub fn count_lines<'a>(chunks: Vec<Chunk<'a>>) -> (counts: Vec<usize>)
    requires
        forall|i: int| 0 <= i < chunks@.len() ==> (#[trigger] chunks@[i]).wf(),
    ensures
        counts@.len() == chunks@.len(),
        forall|i: int|
            0 <= i < chunks@.len() ==> #[trigger] counts@[i] == chunks@[i].remaining().len(),
{
    let ghost all = chunks@;
    let mut counts: Vec<usize> = Vec::with_capacity(chunks.len());
    for chunk in it: chunks
        invariant
            it.seq() == all,
            forall|i: int| 0 <= i < all.len() ==> (#[trigger] all[i]).wf(),
            counts@.len() == it.index(),
            forall|i: int| 0 <= i < it.index() ==> #[trigger] counts@[i]
                == all[i].remaining().len(),
    {
        let mut chunk = chunk;
        counts.push(chunk.count());
    }
    counts
}

} // verus!
