//! Why the iterators that the buffer is divided among leave no byte out and take
//! no byte twice.

use crate::bytes::{
    absent, first_index, is_first, is_last, last_index, lemma_first_index, lemma_first_unique,
    lemma_last_index, lemma_last_unique, NL,
};
use crate::chunks::{breaks_from, ceil_div, chunk_size_for, divided, is_body, least, moved, Chunk};
use crate::input::Input;
use crate::input::lines_from;
use vstd::prelude::*;

verus! {

/// The spans lie one behind the other, none of them empty, from `from` to `to`.
pub open spec fn tiles(spans: Seq<(int, int)>, from: int, to: int) -> bool {
    &&& spans.len() == 0 ==> from == to
    &&& spans.len() > 0 ==> spans[0].0 == from && spans[spans.len() - 1].1 == to
    &&& forall|j: int| 0 <= j < spans.len() ==> (#[trigger] spans[j]).0 < spans[j].1
    &&& forall|j: int| 0 <= j < spans.len() - 1 ==> (#[trigger] spans[j]).1 == spans[j + 1].0
}

/// Spans that tile come in ascending order.
pub proof fn lemma_tiles_ordered(spans: Seq<(int, int)>, from: int, to: int, a: int, b: int)
    requires
        tiles(spans, from, to),
        0 <= a < b < spans.len(),
    ensures
        spans[a].1 <= spans[b].0,
        from <= spans[a].0,
        spans[b].1 <= to,
    decreases b - a,
{
    if a + 1 < b {
        lemma_tiles_ordered(spans, from, to, a + 1, b);
        assert(spans[a].1 == spans[a + 1].0);
        assert(spans[a + 1].0 < spans[a + 1].1);
    } else {
        assert(spans[a].1 == spans[a + 1].0);
    }
    lemma_tiles_bounds(spans, from, to, a);
    lemma_tiles_bounds(spans, from, to, b);
}

/// Spans that tile lie between the two ends.
pub proof fn lemma_tiles_bounds(spans: Seq<(int, int)>, from: int, to: int, a: int)
    requires
        tiles(spans, from, to),
        0 <= a < spans.len(),
    ensures
        from <= spans[a].0,
        spans[a].1 <= to,
{
    lemma_tiles_up(spans, from, to, a);
    lemma_tiles_down(spans, from, to, a);
}

proof fn lemma_tiles_up(spans: Seq<(int, int)>, from: int, to: int, a: int)
    requires
        tiles(spans, from, to),
        0 <= a < spans.len(),
    ensures
        from <= spans[a].0,
    decreases a,
{
    if a > 0 {
        lemma_tiles_up(spans, from, to, a - 1);
        assert(spans[a - 1].1 == spans[a - 1 + 1].0);
        assert(spans[a - 1].0 < spans[a - 1].1);
    }
}

proof fn lemma_tiles_down(spans: Seq<(int, int)>, from: int, to: int, a: int)
    requires
        tiles(spans, from, to),
        0 <= a < spans.len(),
    ensures
        spans[a].1 <= to,
    decreases spans.len() - a,
{
    if a < spans.len() - 1 {
        lemma_tiles_down(spans, from, to, a + 1);
        assert(spans[a].1 == spans[a + 1].0);
        assert(spans[a + 1].0 < spans[a + 1].1);
    }
}

/// Every index between the two ends lies in one of the spans that tile.
pub proof fn lemma_tiles_cover(spans: Seq<(int, int)>, from: int, to: int, p: int) -> (j: int)
    requires
        tiles(spans, from, to),
        from <= p < to,
    ensures
        0 <= j < spans.len(),
        spans[j].0 <= p < spans[j].1,
    decreases spans.len(),
{
    let last = spans.len() - 1;
    if spans[last].0 <= p {
        last
    } else {
        let rest = spans.drop_last();
        assert(spans[last - 1].1 == spans[last - 1 + 1].0);
        assert(tiles(rest, from, spans[last].0)) by {
            assert forall|j: int| 0 <= j < rest.len() - 1 implies (#[trigger] rest[j]).1 == rest[j
                + 1].0 by {
                assert(spans[j].1 == spans[j + 1].0);
            }
        }
        lemma_tiles_cover(rest, from, spans[last].0, p)
    }
}

/// Where the lines from `pos` on end: behind the last newline, and at the end of
/// the bytes where what follows the last newline is a line.
pub open spec fn lines_end(data: Seq<u8>, pos: int, tail: bool) -> int
    decreases data.len() - pos,
{
    if pos < 0 || pos >= data.len() {
        pos
    } else {
        match first_index(data.skip(pos), NL, NL) {
            Some(i) => if i >= 0 {
                lines_end(data, pos + i + 1, tail)
            } else {
                pos
            },
            None => if tail {
                data.len() as int
            } else {
                pos
            },
        }
    }
}

/// The lines from `pos` on tile the bytes from `pos` to where the lines end.
pub proof fn lemma_lines_tile(data: Seq<u8>, pos: int, tail: bool)
    requires
        0 <= pos <= data.len(),
    ensures
        tiles(lines_from(data, pos, tail), pos, lines_end(data, pos, tail)),
        pos <= lines_end(data, pos, tail) <= data.len(),
        tail ==> lines_end(data, pos, tail) == data.len(),
        !tail ==> absent(data.skip(lines_end(data, pos, tail)), NL, NL),
        !tail && lines_end(data, pos, tail) > pos ==> data[lines_end(data, pos, tail) - 1] == NL,
        lines_from(data, pos, tail).len() > 0 && !absent(data.skip(pos), NL, NL) ==> is_first(
            data.skip(pos),
            lines_from(data, pos, tail)[0].1 - pos - 1,
            NL,
            NL,
        ),
        !absent(data.skip(pos), NL, NL) ==> lines_from(data, pos, tail).len() > 0,
    decreases data.len() - pos,
{
    if pos < data.len() {
        lemma_first_index(data.skip(pos), NL, NL);
        match first_index(data.skip(pos), NL, NL) {
            Some(i) => {
                let next = pos + i + 1;
                lemma_lines_tile(data, next, tail);
                let rest = lines_from(data, next, tail);
                let all = lines_from(data, pos, tail);
                assert(all =~= seq![(pos, next)] + rest);
                assert forall|j: int| 0 <= j < all.len() - 1 implies (#[trigger] all[j]).1 == all[j
                    + 1].0 by {
                    if j > 0 {
                        assert(rest[j - 1].1 == rest[j - 1 + 1].0);
                    }
                }
                assert forall|j: int| 0 <= j < all.len()
                    implies (#[trigger] all[j]).0 < all[j].1 by {
                    if j > 0 {
                        assert(rest[j - 1].0 < rest[j - 1].1);
                    }
                }
            },
            None => {},
        }
    } else {
        assert(data.skip(pos) =~= Seq::<u8>::empty());
    }
}


/// Chunk `i` of the bytes, cut into chunks of `size` bytes.
pub open spec fn chunk_of(data: Seq<u8>, size: int, i: int) -> Seq<u8> {
    data.subrange(i * size, least((i + 1) * size, data.len() as int))
}

/// The lines that the iterator over chunk `i` walks over, by their indices in
/// the chunk.
pub open spec fn body_lines(data: Seq<u8>, size: int, i: int) -> Seq<(int, int)> {
    let all = lines_from(chunk_of(data, size, i), 0, (i + 1) * size >= data.len());
    if i > 0 && all.len() > 0 {
        all.skip(1)
    } else {
        all
    }
}

/// The lines of iterator `it`, by their indices in the bytes. The iterators over
/// the chunks come first, and behind them the iterator over the lines that cross
/// the cuts.
pub open spec fn emitted(data: Seq<u8>, size: int, it: int) -> Seq<(int, int)> {
    if it < ceil_div(data.len() as int, size) {
        moved(body_lines(data, size, it), it * size)
    } else {
        breaks_from(data, 0, size)
    }
}

/// Line `j` of iterator `it` holds the byte at index `p`.
pub open spec fn covers(data: Seq<u8>, size: int, it: int, j: int, p: int) -> bool {
    &&& 0 <= it <= ceil_div(data.len() as int, size)
    &&& 0 <= j < emitted(data, size, it).len()
    &&& emitted(data, size, it)[j].0 <= p < emitted(data, size, it)[j].1
}

/// Chunk `i` holds a newline.
pub open spec fn has_newline(data: Seq<u8>, size: int, i: int) -> bool {
    !absent(chunk_of(data, size, i), NL, NL)
}

/// The first `m` chunks hold a newline each, and so does the last chunk. The
/// chunks between them hold none.
pub open spec fn cut_at(data: Seq<u8>, size: int, m: int) -> bool {
    let k = ceil_div(data.len() as int, size);
    &&& 1 <= m <= k - 1
    &&& forall|i: int| 0 <= i < m ==> #[trigger] has_newline(data, size, i)
    &&& forall|i: int| m <= i < k - 1 ==> !#[trigger] has_newline(data, size, i)
    &&& has_newline(data, size, k - 1)
}

/// The cuts do no harm: the bytes make one chunk at the most, or the first and
/// the last chunk hold a newline each and every chunk without a newline is
/// followed by chunks without a newline up to the last chunk.
///
/// A line may then run on through whole chunks, but only into the last chunk.
pub open spec fn cuts_clean(data: Seq<u8>, size: int) -> bool {
    ceil_div(data.len() as int, size) <= 1 || exists|m: int| cut_at(data, size, m)
}

/// The chunk in which the line that crosses the cut behind chunk `t` ends.
pub open spec fn landing(data: Seq<u8>, size: int, m: int, t: int) -> int {
    if t + 1 < m {
        t + 1
    } else {
        ceil_div(data.len() as int, size) - 1
    }
}

/// Where the lines of the iterator over chunk `i` start.
pub open spec fn body_from(data: Seq<u8>, size: int, i: int) -> int {
    if i == 0 {
        0
    } else {
        i * size + first_index(chunk_of(data, size, i), NL, NL).unwrap() + 1
    }
}

/// Where the lines of the iterator over chunk `i` end.
pub open spec fn body_to(data: Seq<u8>, size: int, i: int) -> int {
    if (i + 1) * size >= data.len() {
        data.len() as int
    } else {
        i * size + last_index(chunk_of(data, size, i), NL).unwrap() + 1
    }
}

/// The number of chunks, and where they lie.
pub proof fn lemma_chunks(n: int, size: int)
    requires
        0 <= n,
        0 < size,
    ensures
        0 <= ceil_div(n, size),
        ceil_div(n, size) * size >= n,
        n > 0 ==> (ceil_div(n, size) - 1) * size < n,
        n > 0 ==> ceil_div(n, size) >= 1,
        n == 0 ==> ceil_div(n, size) == 0,
{
    let k = (n + size - 1) / size;
    if n == 0 {
        assert((size - 1) / size == 0) by (nonlinear_arith)
            requires
                0 < size,
        ;
    }
    assert(k * size <= n + size - 1 && n + size - 1 < k * size + size && k >= 0)
        by (nonlinear_arith)
        requires
            k == (n + size - 1) / size,
            0 < size,
            0 <= n,
    ;
    assert((k - 1) * size == k * size - size) by (nonlinear_arith);
    if n > 0 && k < 1 {
        assert(k * size <= 0) by (nonlinear_arith)
            requires
                k <= 0,
                size > 0,
        ;
    }
}

/// Where chunk `a` starts, and where the next one does.
pub proof fn lemma_at(a: int, size: int)
    requires
        0 <= a,
        0 < size,
    ensures
        0 <= a * size,
        (a + 1) * size == a * size + size,
{
    assert(0 <= a * size && (a + 1) * size == a * size + size) by (nonlinear_arith)
        requires
            0 <= a,
            0 < size,
    ;
}

/// Where chunk `t` of `n` bytes lies.
pub proof fn lemma_chunk_bounds(n: int, size: int, t: int)
    requires
        0 <= n,
        0 < size,
        0 <= t < ceil_div(n, size),
    ensures
        0 <= t * size < n,
        (t + 1) * size == t * size + size,
        t + 1 < ceil_div(n, size) ==> (t + 1) * size < n,
        t + 1 == ceil_div(n, size) ==> (t + 1) * size >= n,
{
    let k = ceil_div(n, size);
    lemma_chunks(n, size);
    lemma_at(t, size);
    assert(t * size <= (k - 1) * size) by (nonlinear_arith)
        requires
            t <= k - 1,
            0 < size,
    ;
    if t + 1 < k {
        assert((t + 1) * size <= (k - 1) * size) by (nonlinear_arith)
            requires
                t + 1 <= k - 1,
                0 < size,
        ;
    }
    if t + 1 == k {
        assert((t + 1) * size == k * size) by (nonlinear_arith)
            requires
                t + 1 == k,
        ;
    }
}

/// Moving spans on moves what they tile.
pub proof fn lemma_moved_tiles(spans: Seq<(int, int)>, from: int, to: int, by: int)
    requires
        tiles(spans, from, to),
    ensures
        tiles(moved(spans, by), from + by, to + by),
{
    let m = moved(spans, by);
    assert forall|j: int| 0 <= j < m.len() - 1 implies (#[trigger] m[j]).1 == m[j + 1].0 by {
        assert(spans[j].1 == spans[j + 1].0);
    }
    assert forall|j: int| 0 <= j < m.len() implies (#[trigger] m[j]).0 < m[j].1 by {
        assert(spans[j].0 < spans[j].1);
    }
}

/// The first newline of a run of bytes is the first newline of its start.
pub proof fn lemma_first_of_prefix(s: Seq<u8>, m: int)
    requires
        0 <= m <= s.len(),
        !absent(s.take(m), NL, NL),
    ensures
        first_index(s, NL, NL) == first_index(s.take(m), NL, NL),
        first_index(s, NL, NL) is Some,
        0 <= first_index(s, NL, NL).unwrap() < m,
{
    lemma_first_index(s.take(m), NL, NL);
    lemma_first_index(s, NL, NL);
    let f = first_index(s.take(m), NL, NL).unwrap();
    assert(s.take(m)[f] == s[f]);
    assert(s.take(m).take(f) =~= s.take(f));
    assert(is_first(s, f, NL, NL));
}

/// The lines of the iterator over a chunk tile the bytes from where they start
/// to where they end, which lie within the chunk.
pub proof fn lemma_body_tiles(data: Seq<u8>, size: int, i: int)
    requires
        0 < size,
        0 <= i < ceil_div(data.len() as int, size),
        ceil_div(data.len() as int, size) <= 1 || has_newline(data, size, i),
    ensures
        tiles(emitted(data, size, i), body_from(data, size, i), body_to(data, size, i)),
        i * size <= body_from(data, size, i) <= body_to(data, size, i),
        body_to(data, size, i) <= least((i + 1) * size, data.len() as int),
        i > 0 ==> i * size < body_from(data, size, i),
{
    let n = data.len() as int;
    let k = ceil_div(n, size);
    lemma_chunk_bounds(n, size, i);
    let c = chunk_of(data, size, i);
    let tail = (i + 1) * size >= n;
    let all = lines_from(c, 0, tail);
    lemma_lines_tile(c, 0, tail);
    lemma_first_index(c, NL, NL);
    lemma_last_index(c, NL);
    assert(c.skip(0) =~= c);
    let end = lines_end(c, 0, tail);
    if k > 1 {
        let f = first_index(c, NL, NL).unwrap();
        assert(all[0].1 == f + 1) by {
            lemma_first_unique(c, all[0].1 - 1, f, NL, NL);
        }
        if !tail {
            assert(end > 0) by {
                if end == 0 {
                    assert(c.skip(0) =~= c);
                }
            }
            assert(is_last(c, end - 1, NL));
            lemma_last_unique(c, end - 1, last_index(c, NL).unwrap(), NL);
        }
        lemma_tiles_bounds(all, 0, end, 0);
        if i > 0 {
            let rest = all.skip(1);
            assert(tiles(rest, f + 1, end)) by {
                if rest.len() > 0 {
                    assert(all[0].1 == all[0int + 1].0);
                    assert(rest[rest.len() - 1] == all[all.len() - 1]);
                }
                assert forall|j: int| 0 <= j < rest.len() - 1 implies (#[trigger] rest[j]).1
                    == rest[j + 1].0 by {
                    assert(all[j + 1].1 == all[j + 1 + 1].0);
                }
                assert forall|j: int| 0 <= j < rest.len() implies (#[trigger] rest[j]).0
                    < rest[j].1 by {
                    assert(all[j + 1].0 < all[j + 1].1);
                }
            }
            lemma_moved_tiles(rest, f + 1, end, i * size);
        } else {
            lemma_moved_tiles(all, 0, end, 0);
        }
    } else {
        assert(i == 0);
        assert(tail);
        lemma_moved_tiles(all, 0, end, 0);
    }
}

/// The iterator over a chunk without a newline that is not the last chunk walks
/// over no line.
pub proof fn lemma_body_empty(data: Seq<u8>, size: int, i: int)
    requires
        0 < size,
        0 <= i < ceil_div(data.len() as int, size) - 1,
        !has_newline(data, size, i),
    ensures
        emitted(data, size, i).len() == 0,
{
    let n = data.len() as int;
    lemma_chunk_bounds(n, size, i);
    let c = chunk_of(data, size, i);
    assert(c.skip(0) =~= c);
    lemma_lines_tile(c, 0, false);
    if c.len() > 0 {
        lemma_first_index(c.skip(0), NL, NL);
    }
}

/// The chunks from `m` up to the last hold no newline between them.
pub proof fn lemma_gap(data: Seq<u8>, size: int, m: int)
    requires
        0 < size,
        cut_at(data, size, m),
    ensures
        absent(
            data.subrange(m * size, (ceil_div(data.len() as int, size) - 1) * size),
            NL,
            NL,
        ),
        m * size <= (ceil_div(data.len() as int, size) - 1) * size < data.len(),
{
    let n = data.len() as int;
    let k = ceil_div(n, size);
    lemma_chunk_bounds(n, size, k - 1);
    lemma_at(m, size);
    assert(m * size <= (k - 1) * size) by (nonlinear_arith)
        requires
            m <= k - 1,
            0 < size,
    ;
    let gap = data.subrange(m * size, (k - 1) * size);
    assert forall|j: int| 0 <= j < gap.len() implies #[trigger] gap[j] != NL by {
        let p = m * size + j;
        let i = lemma_chunk_index(n, size, p);
        lemma_chunk_bounds(n, size, i);
        lemma_same_chunk(size, p, i, m);
        assert(i < k - 1) by (nonlinear_arith)
            requires
                i * size <= p,
                p < (k - 1) * size,
                0 < size,
        ;
        assert(!has_newline(data, size, i));
        assert(chunk_of(data, size, i)[p - i * size] == data[p]);
    }
}

/// The first newline behind a run of bytes without a newline.
pub proof fn lemma_first_after_gap(s: Seq<u8>, gap: int, len: int)
    requires
        0 <= gap,
        0 <= len,
        gap + len <= s.len(),
        absent(s.take(gap), NL, NL),
        !absent(s.subrange(gap, gap + len), NL, NL),
    ensures
        first_index(s, NL, NL) is Some,
        first_index(s.subrange(gap, gap + len), NL, NL) is Some,
        first_index(s, NL, NL).unwrap() == gap + first_index(
            s.subrange(gap, gap + len),
            NL,
            NL,
        ).unwrap(),
{
    let part = s.subrange(gap, gap + len);
    lemma_first_index(part, NL, NL);
    lemma_first_index(s, NL, NL);
    let f = first_index(part, NL, NL).unwrap();
    assert(part[f] == s[gap + f]);
    let head = s.take(gap + f);
    assert forall|j: int| 0 <= j < head.len() implies #[trigger] head[j] != NL by {
        if j < gap {
            assert(s.take(gap)[j] == s[j]);
        } else {
            assert(part.take(f)[j - gap] == s[j]);
        }
    }
    assert(is_first(s, gap + f, NL, NL));
}

/// The line that crosses the cut behind chunk `t` runs from where the lines of
/// chunk `t` end to where the lines of the chunk start in which it ends. There
/// are as many such lines as chunks that hold a newline before the first that
/// holds none.
pub proof fn lemma_breaks(data: Seq<u8>, size: int, m: int, t: int)
    requires
        0 < size,
        cut_at(data, size, m),
        0 <= t <= m,
    ensures
        breaks_from(data.skip(t * size), t * size, size).len() == m - t,
        forall|q: int|
            0 <= q < m - t ==> #[trigger] breaks_from(data.skip(t * size), t * size, size)[q] == (
                body_to(data, size, t + q),
                body_from(data, size, landing(data, size, m, t + q)),
            ),
    decreases m - t,
{
    let n = data.len() as int;
    let k = ceil_div(n, size);
    lemma_chunk_bounds(n, size, t);
    let buf = data.skip(t * size);
    if t == m {
        if t == k - 1 {
            if buf.len() >= size {
                assert(buf.skip(size) =~= Seq::<u8>::empty());
                lemma_first_index(buf.skip(size), NL, NL);
            }
        } else {
            assert(buf.take(size) =~= chunk_of(data, size, t));
            assert(!has_newline(data, size, t));
            lemma_last_index(buf.take(size), NL);
        }
    } else {
        lemma_chunk_bounds(n, size, t + 1);
        lemma_chunk_bounds(n, size, k - 1);
        let c = chunk_of(data, size, t);
        assert(buf.take(size) =~= c);
        assert(has_newline(data, size, t));
        lemma_last_index(c, NL);
        let rest = buf.skip(size);
        assert(rest =~= data.skip((t + 1) * size));
        let to = landing(data, size, m, t);
        let target = chunk_of(data, size, to);
        assert(has_newline(data, size, to));
        let gap = to * size - (t + 1) * size;
        if t + 1 < m {
            assert(gap == 0);
            assert(rest.take(0) =~= Seq::<u8>::empty());
        } else {
            lemma_gap(data, size, m);
            assert(rest.take(gap) =~= data.subrange(m * size, (k - 1) * size));
        }
        assert(rest.subrange(gap, gap + target.len()) =~= target);
        lemma_first_after_gap(rest, gap, target.len() as int);
        lemma_breaks(data, size, m, t + 1);
        let all = breaks_from(buf, t * size, size);
        let later = breaks_from(rest, t * size + size, size);
        let s = last_index(c, NL).unwrap();
        let e = first_index(rest, NL, NL).unwrap();
        assert(all =~= seq![(t * size + s + 1, t * size + size + e + 1)] + later);
        assert forall|q: int| 0 <= q < m - t implies #[trigger] all[q] == (
            body_to(data, size, t + q),
            body_from(data, size, landing(data, size, m, t + q)),
        ) by {
            if q > 0 {
                assert(all[q] == later[q - 1]);
                assert(t + 1 + (q - 1) == t + q);
            }
        }
    }
}


/// The chunk that holds the byte at index `p`.
pub proof fn lemma_chunk_index(n: int, size: int, p: int) -> (i: int)
    requires
        0 < size,
        0 <= p < n,
    ensures
        0 <= i < ceil_div(n, size),
        i * size <= p < (i + 1) * size,
{
    let i = p / size;
    let k = ceil_div(n, size);
    lemma_chunks(n, size);
    assert(i * size <= p < (i + 1) * size && 0 <= i) by (nonlinear_arith)
        requires
            i == p / size,
            0 < size,
            0 <= p,
    ;
    assert(i < k) by (nonlinear_arith)
        requires
            i * size <= p,
            p < n,
            n <= k * size,
            0 < size,
    ;
    i
}

/// A byte lies in one chunk only.
pub proof fn lemma_same_chunk(size: int, p: int, a: int, b: int)
    requires
        0 < size,
        a * size <= p < (a + 1) * size,
        b * size <= p,
    ensures
        b <= a,
        p < (b + 1) * size ==> a == b,
{
    assert(b <= a) by (nonlinear_arith)
        requires
            0 < size,
            b * size <= p,
            p < (a + 1) * size,
    ;
    if p < (b + 1) * size {
        assert(a <= b) by (nonlinear_arith)
            requires
                0 < size,
                a * size <= p,
                p < (b + 1) * size,
        ;
    }
}

/// A byte before the end of a chunk lies in that chunk or in one before it.
pub proof fn lemma_chunk_before(size: int, p: int, a: int, b: int)
    requires
        0 < size,
        a * size <= p,
        p < (b + 1) * size,
    ensures
        a <= b,
{
    assert(a <= b) by (nonlinear_arith)
        requires
            0 < size,
            a * size <= p,
            p < (b + 1) * size,
    ;
}

/// Where the line that crosses the cut behind chunk `t` lies: it starts in chunk
/// `t` or at its end, and ends in the chunk in which it lands.
pub proof fn lemma_break_bounds(data: Seq<u8>, size: int, m: int, t: int)
    requires
        0 < size,
        cut_at(data, size, m),
        0 <= t < m,
    ensures
        t * size <= body_to(data, size, t) <= (t + 1) * size,
        landing(data, size, m, t) * size < body_from(data, size, landing(data, size, m, t)),
        body_from(data, size, landing(data, size, m, t)) <= (landing(data, size, m, t) + 1) * size,
        t < landing(data, size, m, t) < ceil_div(data.len() as int, size),
        (t + 1) * size <= landing(data, size, m, t) * size,
{
    let n = data.len() as int;
    let to = landing(data, size, m, t);
    lemma_chunk_bounds(n, size, t);
    lemma_chunk_bounds(n, size, to);
    assert(has_newline(data, size, t));
    assert(has_newline(data, size, to));
    lemma_body_tiles(data, size, t);
    lemma_body_tiles(data, size, to);
    assert((t + 1) * size <= to * size) by (nonlinear_arith)
        requires
            t + 1 <= to,
            0 < size,
    ;
}

/// The partition: every byte of the bytes lies in one line of one iterator, and
/// in no other line of any iterator, where the cuts do no harm.
#[verifier::rlimit(60)]
pub proof fn lemma_partition(data: Seq<u8>, size: int, p: int) -> (at: (int, int))
    requires
        0 < size,
        0 <= p < data.len(),
        cuts_clean(data, size),
    ensures
        covers(data, size, at.0, at.1, p),
        forall|it: int, j: int| covers(data, size, it, j, p) ==> it == at.0 && j == at.1,
{
    let n = data.len() as int;
    let k = ceil_div(n, size);
    let i = lemma_chunk_index(n, size, p);
    lemma_chunk_bounds(n, size, i);
    let breaks = breaks_from(data, 0, size);
    assert(data.skip(0) =~= data);
    assert(0 * size == 0) by (nonlinear_arith);
    if k <= 1 {
        if n >= size {
            assert(data.skip(size) =~= Seq::<u8>::empty());
            lemma_first_index(data.skip(size), NL, NL);
        }
        assert(breaks.len() == 0);
        lemma_body_tiles(data, size, 0);
        let j = lemma_tiles_cover(emitted(data, size, 0), 0, n, p);
        assert forall|it: int, other: int| covers(data, size, it, other, p) implies it == 0
            && other == j by {
            if other < j {
                lemma_tiles_ordered(emitted(data, size, 0), 0, n, other, j);
            } else if j < other {
                lemma_tiles_ordered(emitted(data, size, 0), 0, n, j, other);
            }
        }
        (0, j)
    } else {
        let m = choose|m: int| cut_at(data, size, m);
        lemma_breaks(data, size, m, 0);
        assert forall|t: int| 0 <= t < m implies #[trigger] breaks[t] == (
            body_to(data, size, t),
            body_from(data, size, landing(data, size, m, t)),
        ) by {
            assert(breaks[t] == (
                body_to(data, size, 0 + t),
                body_from(data, size, landing(data, size, m, 0 + t)),
            ));
        }
        // The chunk whose lines or whose crossing line hold the byte.
        let lined = has_newline(data, size, i);
        if lined {
            lemma_body_tiles(data, size, i);
        }
        let at: (int, int) = if !lined {
            (k, m - 1)
        } else if p < body_from(data, size, i) {
            (
                k,
                if i < m {
                    i - 1
                } else {
                    m - 1
                },
            )
        } else if p < body_to(data, size, i) {
            (
                i,
                lemma_tiles_cover(
                    emitted(data, size, i),
                    body_from(data, size, i),
                    body_to(data, size, i),
                    p,
                ),
            )
        } else {
            (k, i)
        };
        if at.0 == k {
            lemma_break_bounds(data, size, m, at.1);
            if !lined {
                assert(m <= i < k - 1) by {
                    if i < m {
                        assert(has_newline(data, size, i));
                    }
                }
                assert(m * size <= i * size) by (nonlinear_arith)
                    requires
                        m <= i,
                        0 < size,
                ;
                assert((i + 1) * size <= (k - 1) * size) by (nonlinear_arith)
                    requires
                        i + 1 <= k - 1,
                        0 < size,
                ;
            } else if p < body_from(data, size, i) {
                if i >= m {
                    assert(i == k - 1);
                    assert(m * size <= i * size) by (nonlinear_arith)
                        requires
                            m <= i,
                            0 < size,
                    ;
                }
            } else {
                assert(i < m);
            }
            assert(covers(data, size, at.0, at.1, p));
        }
        assert forall|it: int, j: int| covers(data, size, it, j, p) implies it == at.0 && j
            == at.1 by {
            if it < k {
                lemma_chunk_bounds(n, size, it);
                if has_newline(data, size, it) {
                    lemma_body_tiles(data, size, it);
                    lemma_tiles_bounds(
                        emitted(data, size, it),
                        body_from(data, size, it),
                        body_to(data, size, it),
                        j,
                    );
                    lemma_same_chunk(size, p, i, it);
                    if j < at.1 {
                        lemma_tiles_ordered(
                            emitted(data, size, i),
                            body_from(data, size, i),
                            body_to(data, size, i),
                            j,
                            at.1,
                        );
                    } else if at.1 < j {
                        lemma_tiles_ordered(
                            emitted(data, size, i),
                            body_from(data, size, i),
                            body_to(data, size, i),
                            at.1,
                            j,
                        );
                    }
                } else {
                    lemma_body_empty(data, size, it);
                }
            } else {
                // A crossing line: it reaches from chunk `j` into the chunk in
                // which it lands.
                lemma_break_bounds(data, size, m, j);
                let to = landing(data, size, m, j);
                lemma_same_chunk(size, p, i, j);
                lemma_chunk_before(size, p, i, to);
                if j + 1 < m {
                    lemma_same_chunk(size, p, i, j);
                    if i == j {
                    } else {
                        assert(i == j + 1);
                    }
                } else {
                    assert(j == m - 1);
                    if i == j {
                    } else if i < k - 1 {
                        assert(!has_newline(data, size, i));
                    }
                }
            }
        }
        at
    }
}


/// Line `j` of iterator `it` holds the byte at index `p`.
pub open spec fn holds_byte(chunks: Seq<Chunk<'_>>, it: int, j: int, p: int) -> bool {
    &&& 0 <= it < chunks.len()
    &&& 0 <= j < chunks[it].remaining().len()
    &&& chunks[it].remaining()[j].0 <= p < chunks[it].remaining()[j].1
}

/// The iterators that a buffer is divided among walk over lines that make up the
/// buffer: every byte lies in one line of one iterator, and in no other line of
/// any iterator.
///
/// For one or two workers this holds of every buffer. For more it holds where
/// every chunk holds a newline, or the buffer makes a single chunk.
pub proof fn lemma_division_partition(
    input: Input<'_>,
    count: int,
    size_hint: int,
    page_size: int,
    chunks: Seq<Chunk<'_>>,
    p: int,
) -> (at: (int, int))
    requires
        divided(input, count, size_hint, page_size, chunks),
        0 <= p < input@.len(),
        count >= 3 ==> cuts_clean(
            input@,
            chunk_size_for(count, size_hint, page_size, input@.len() as int),
        ),
    ensures
        holds_byte(chunks, at.0, at.1, p),
        forall|it: int, j: int| holds_byte(chunks, it, j, p) ==> it == at.0 && j == at.1,
{
    let data = input@;
    let n = data.len() as int;
    if count < 3 {
        let all = lines_from(data, 0, true);
        lemma_lines_tile(data, 0, true);
        lemma_moved_tiles(all, 0, n, 0);
        let spans = chunks[0].remaining();
        let j = lemma_tiles_cover(spans, 0, n, p);
        assert forall|it: int, other: int| holds_byte(chunks, it, other, p) implies it == 0
            && other == j by {
            if other < j {
                lemma_tiles_ordered(spans, 0, n, other, j);
            } else if j < other {
                lemma_tiles_ordered(spans, 0, n, j, other);
            }
        }
        (0, j)
    } else {
        let size = chunk_size_for(count, size_hint, page_size, n);
        let k = ceil_div(n, size);
        let at = lemma_partition(data, size, p);
        assert forall|it: int| 0 <= it <= k implies #[trigger] chunks[it].remaining() == emitted(
            data,
            size,
            it,
        ) by {
            if it < k {
                assert(is_body(chunks[it], input, it, size));
            }
        }
        assert(holds_byte(chunks, at.0, at.1, p));
        assert forall|it: int, j: int| holds_byte(chunks, it, j, p) implies it == at.0 && j
            == at.1 by {
            assert(chunks[it].remaining() == emitted(data, size, it));
            assert(covers(data, size, it, j, p));
        }
        at
    }
}

} // verus!
