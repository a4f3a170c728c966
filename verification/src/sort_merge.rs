//! The sort-merge join: table and relation are sorted, and merged chunk by chunk.
//!
//! Each chunk of the table is merged on its own. A row that finds no pair is marked
//! for deletion. A row that finds pairs takes the object of the first in place, and
//! a copy of it is set aside for each further pair. Once all chunks are done, the
//! marked rows leave the table and the copies enter it.

use crate::hash::copy_row;
use crate::input::Field;
use crate::join::{
    extensions, join_rows, lemma_join_concat, lemma_join_perm_relation, lemma_join_perm_table,
    lemma_probed_all, rows_of, seed, wide, JoinAlgo, Settings,
};
use crate::sums::{lemma_empty_multiset, lemma_push_multiset};
use rayon::iter::{IndexedParallelIterator, ParallelIterator};
use rayon::slice::ParallelSliceMut;
use vstd::multiset::*;
use vstd::prelude::*;
use vstd::seq_lib::*;

verus! {

/// The number of rows that are merged as one piece of work.
pub const CHUNK: usize = 1024;

/// What the merge of one chunk leaves to be done.
pub struct ChunkMerge {
    /// The index in the table of the chunk's first row.
    pub base: usize,
    /// The indices in the table of the rows that found no pair, in ascending order.
    pub deleted: Vec<usize>,
    /// The copies of rows that found more than one pair.
    pub added: Vec<Vec<Field>>,
}

/// The rows are in ascending order of column `i`.
pub open spec fn sorted_rows(t: Seq<Seq<Field>>, i: int) -> bool {
    forall|a: int, b: int| 0 <= a <= b < t.len() ==> t[a][i].0 <= t[b][i].0
}

/// The pairs are in ascending order of their subjects, and those of one subject in
/// ascending order of their objects.
pub open spec fn sorted_pairs(r: Seq<(Field, Field)>) -> bool {
    forall|a: int, b: int|
        0 <= a <= b < r.len() ==> r[a].0.0 < r[b].0.0 || (r[a].0.0 == r[b].0.0 && r[a].1.0
            <= r[b].1.0)
}

/// The indices are in strictly ascending order and lie between `from` and `to`.
pub open spec fn ascending(dels: Seq<usize>, from: int, to: int) -> bool {
    &&& forall|a: int, b: int| 0 <= a < b < dels.len() ==> dels[a] < dels[b]
    &&& forall|a: int| 0 <= a < dels.len() ==> from <= #[trigger] dels[a] < to
}

/// The indices, as a set.
pub open spec fn marked(dels: Seq<usize>) -> Set<int> {
    Set::new(|d: int| exists|k: int| 0 <= k < dels.len() && dels[k] == d)
}

/// The rows that stay: those of `rows`, which stand in the table from index `base`
/// on, whose index in the table is not among `dels`.
pub open spec fn kept(rows: Seq<Seq<Field>>, base: int, dels: Set<int>) -> Seq<Seq<Field>>
    decreases rows.len(),
{
    if rows.len() == 0 {
        Seq::empty()
    } else {
        let before = kept(rows.drop_last(), base, dels);
        if dels.contains(base + rows.len() - 1) {
            before
        } else {
            before.push(rows.last())
        }
    }
}

/// Pair `j` is the first of `r` with the subject `key`.
pub open spec fn first_match(r: Seq<(Field, Field)>, key: Field, j: int) -> bool {
    &&& 0 <= j < r.len()
    &&& r[j].0 == key
    &&& forall|q: int| 0 <= q < j ==> (#[trigger] r[q]).0 != key
}

/// Row `k` of the chunk is in its place: where it is marked, it is as it was and
/// no pair has its join column for a subject; where it is not, it holds, in
/// column `i + 1`, the object of the first pair that has.
pub open spec fn placed(
    before: Seq<Seq<Field>>,
    after: Seq<Seq<Field>>,
    base: int,
    r: Seq<(Field, Field)>,
    i: int,
    dels: Set<int>,
    k: int,
) -> bool {
    if dels.contains(base + k) {
        after[k] == before[k] && forall|q: int| 0 <= q < r.len() ==> (#[trigger] r[q]).0
            != before[k][i]
    } else {
        exists|j: int| #[trigger]
            first_match(r, before[k][i], j) && after[k] == before[k].update(i + 1, r[j].1)
    }
}

/// What the merge of the chunk that starts at `base` comes to: `after` are the
/// chunk's rows once it is done, every one of them in its place, and the rows
/// that stay together with the copies are the rows of the join step of the chunk
/// as it was `before`.
pub open spec fn chunk_merged(
    before: Seq<Seq<Field>>,
    after: Seq<Seq<Field>>,
    base: int,
    r: Seq<(Field, Field)>,
    i: int,
    out: ChunkMerge,
) -> bool {
    &&& after.len() == before.len()
    &&& out.base == base
    &&& ascending(out.deleted@, base, base + before.len())
    &&& wide(after, i)
    &&& wide(rows_of(out.added@), i)
    &&& forall|k: int|
        0 <= k < before.len() ==> #[trigger] placed(
            before,
            after,
            base,
            r,
            i,
            marked(out.deleted@),
            k,
        )
    &&& kept(after, base, marked(out.deleted@)).to_multiset().add(
        rows_of(out.added@).to_multiset(),
    ) == join_rows(before, r, i).to_multiset()
}

/// The first index of the chunk `c` of a table of `n` rows.
pub open spec fn chunk_start(c: int, n: int) -> int {
    if c * CHUNK < n {
        c * CHUNK
    } else {
        n
    }
}

/// The number of chunks of a table of `n` rows.
pub open spec fn chunk_count(n: int) -> int {
    (n + CHUNK - 1) / (CHUNK as int)
}

/// Every chunk of the table is merged, and `outs` holds what each leaves to be
/// done, in the order of the chunks.
pub open spec fn all_merged(
    before: Seq<Seq<Field>>,
    after: Seq<Seq<Field>>,
    r: Seq<(Field, Field)>,
    i: int,
    outs: Seq<ChunkMerge>,
) -> bool {
    &&& after.len() == before.len()
    &&& outs.len() == chunk_count(before.len() as int)
    &&& forall|c: int|
        0 <= c < outs.len() ==> chunk_merged(
            before.subrange(
                chunk_start(c, before.len() as int),
                chunk_start(c + 1, before.len() as int),
            ),
            after.subrange(
                chunk_start(c, before.len() as int),
                chunk_start(c + 1, before.len() as int),
            ),
            c * CHUNK,
            r,
            i,
            #[trigger] outs[c],
        )
}

/// Rows that stay do so whatever is marked outside of where they stand.
pub proof fn lemma_kept_agree(rows: Seq<Seq<Field>>, base: int, d1: Set<int>, d2: Set<int>)
    requires
        forall|x: int| base <= x < base + rows.len() ==> d1.contains(x) == d2.contains(x),
    ensures
        kept(rows, base, d1) == kept(rows, base, d2),
    decreases rows.len(),
{
    if rows.len() > 0 {
        lemma_kept_agree(rows.drop_last(), base, d1, d2);
    }
}

/// The rows that stay of two runs of rows put together.
pub proof fn lemma_kept_concat(a: Seq<Seq<Field>>, b: Seq<Seq<Field>>, base: int, dels: Set<int>)
    ensures
        kept(a + b, base, dels) == kept(a, base, dels) + kept(b, base + a.len(), dels),
    decreases b.len(),
{
    if b.len() == 0 {
        assert(a + b =~= a);
        assert(kept(a, base, dels) + Seq::<Seq<Field>>::empty() =~= kept(a, base, dels));
    } else {
        lemma_kept_concat(a, b.drop_last(), base, dels);
        assert((a + b).drop_last() =~= a + b.drop_last());
        if !dels.contains(base + a.len() + b.len() - 1) {
            assert((kept(a, base, dels) + kept(b.drop_last(), base + a.len(), dels)).push(b.last())
                =~= kept(a, base, dels) + kept(b.drop_last(), base + a.len(), dels).push(
                b.last(),
            ));
        }
    }
}

/// Marking one more row takes that row out of those that stay.
pub proof fn lemma_kept_mark(rows: Seq<Seq<Field>>, dels: Set<int>, idx: int)
    requires
        0 <= idx < rows.len(),
        !dels.contains(idx),
    ensures
        kept(rows, 0, dels).to_multiset().count(rows[idx]) > 0,
        kept(rows, 0, dels.insert(idx)).to_multiset() == kept(rows, 0, dels).to_multiset().remove(
            rows[idx],
        ),
    decreases rows.len(),
{
    broadcast use group_to_multiset_ensures;

    let d = rows.drop_last();
    let last = rows.last();
    if idx == rows.len() - 1 {
        lemma_kept_agree(d, 0, dels, dels.insert(idx));
        assert(kept(d, 0, dels).push(last).to_multiset().remove(last) =~= kept(
            d,
            0,
            dels,
        ).to_multiset());
    } else {
        lemma_kept_mark(d, dels, idx);
        if !dels.contains(rows.len() - 1) {
            let m = kept(d, 0, dels).to_multiset();
            assert(m.insert(last).remove(rows[idx]) =~= m.remove(rows[idx]).insert(last));
        }
    }
}

/// Moving the last element into a place and dropping the last takes out what
/// stood in that place.
pub proof fn lemma_swap_remove(s: Seq<Seq<Field>>, idx: int)
    requires
        0 <= idx < s.len(),
    ensures
        s.update(idx, s.last()).drop_last().to_multiset() == s.to_multiset().remove(s[idx]),
{
    broadcast use group_to_multiset_ensures;

    let d = s.drop_last();
    assert(s =~= d.push(s.last()));
    if idx == s.len() - 1 {
        assert(s.update(idx, s.last()).drop_last() =~= d);
        assert(d.to_multiset().insert(s.last()).remove(s.last()) =~= d.to_multiset());
    } else {
        assert(s.update(idx, s.last()).drop_last() =~= d.update(idx, s.last()));
        assert(d.to_multiset().insert(s.last()).remove(d[idx]) =~= d.to_multiset().insert(
            s.last(),
        ).remove(s[idx]));
    }
}

/// The extensions of a row by two runs of pairs put together.
pub proof fn lemma_extensions_concat(
    row: Seq<Field>,
    a: Seq<(Field, Field)>,
    b: Seq<(Field, Field)>,
    i: int,
)
    ensures
        extensions(row, a + b, i) == extensions(row, a, i) + extensions(row, b, i),
    decreases b.len(),
{
    if b.len() == 0 {
        assert(a + b =~= a);
        assert(extensions(row, a, i) + Seq::<Seq<Field>>::empty() =~= extensions(row, a, i));
    } else {
        lemma_extensions_concat(row, a, b.drop_last(), i);
        assert((a + b).drop_last() =~= a + b.drop_last());
        if b.last().0 == row[i] {
            let x = row.update(i + 1, b.last().1);
            assert((extensions(row, a, i) + extensions(row, b.drop_last(), i)).push(x)
                =~= extensions(row, a, i) + extensions(row, b.drop_last(), i).push(x));
        }
    }
}

/// Pairs with other subjects extend nothing.
pub proof fn lemma_extensions_none(row: Seq<Field>, r: Seq<(Field, Field)>, i: int)
    requires
        forall|k: int| 0 <= k < r.len() ==> (#[trigger] r[k]).0 != row[i],
    ensures
        extensions(row, r, i) == Seq::<Seq<Field>>::empty(),
    decreases r.len(),
{
    if r.len() > 0 {
        lemma_extensions_none(row, r.drop_last(), i);
    }
}

/// Pairs with the row's subject extend it by one row each.
pub proof fn lemma_extensions_all(row: Seq<Field>, r: Seq<(Field, Field)>, i: int)
    requires
        forall|k: int| 0 <= k < r.len() ==> (#[trigger] r[k]).0 == row[i],
    ensures
        extensions(row, r, i).len() == r.len(),
        forall|k: int|
            0 <= k < r.len() ==> #[trigger] extensions(row, r, i)[k] == row.update(i + 1, r[k].1),
    decreases r.len(),
{
    if r.len() > 0 {
        lemma_extensions_all(row, r.drop_last(), i);
    }
}

/// The extensions of a row by sorted pairs are those by the run of pairs that
/// have its subject.
pub proof fn lemma_extensions_run(
    row: Seq<Field>,
    r: Seq<(Field, Field)>,
    i: int,
    from: int,
    to: int,
)
    requires
        0 <= from <= to <= r.len(),
        forall|k: int| 0 <= k < from ==> (#[trigger] r[k]).0.0 < row[i].0,
        forall|k: int| from <= k < to ==> (#[trigger] r[k]).0 == row[i],
        forall|k: int| to <= k < r.len() ==> (#[trigger] r[k]).0.0 > row[i].0,
    ensures
        extensions(row, r, i) == extensions(row, r.subrange(from, to), i),
        extensions(row, r, i).len() == to - from,
        forall|k: int|
            0 <= k < to - from ==> #[trigger] extensions(row, r, i)[k] == row.update(
                i + 1,
                r[from + k].1,
            ),
{
    let a = r.take(from);
    let b = r.subrange(from, to);
    let c = r.skip(to);
    assert(r =~= (a + b) + c);
    lemma_extensions_concat(row, a + b, c, i);
    lemma_extensions_concat(row, a, b, i);
    lemma_extensions_none(row, a, i);
    lemma_extensions_none(row, c, i);
    lemma_extensions_all(row, b, i);
    assert(Seq::<Seq<Field>>::empty() + extensions(row, b, i) + Seq::<Seq<Field>>::empty()
        =~= extensions(row, b, i));
}

/// The index of the first pair whose subject is not below `key`.
pub fn lower_bound(relation: &Vec<(Field, Field)>, key: Field) -> (at: usize)
    requires
        sorted_pairs(relation@),
    ensures
        at <= relation@.len(),
        forall|k: int| 0 <= k < at ==> (#[trigger] relation@[k]).0.0 < key.0,
        forall|k: int| at <= k < relation@.len() ==> (#[trigger] relation@[k]).0.0 >= key.0,
{
    let mut lo: usize = 0;
    let mut hi: usize = relation.len();
    while lo < hi
        invariant
            lo <= hi <= relation@.len(),
            sorted_pairs(relation@),
            forall|k: int| 0 <= k < lo ==> (#[trigger] relation@[k]).0.0 < key.0,
            forall|k: int| hi <= k < relation@.len() ==> (#[trigger] relation@[k]).0.0 >= key.0,
        decreases hi - lo,
    {
        let mid: usize = lo + (hi - lo) / 2;
        if relation[mid].0.0 < key.0 {
            assert forall|k: int| 0 <= k < mid + 1 implies (#[trigger] relation@[k]).0.0
                < key.0 by {
                assert(relation@[k].0.0 <= relation@[mid as int].0.0);
            }
            lo = mid + 1;
        } else {
            assert forall|k: int| mid <= k < relation@.len() implies (#[trigger] relation@[k]).0.0
                >= key.0 by {
                assert(relation@[mid as int].0.0 <= relation@[k].0.0);
            }
            hi = mid;
        }
    }
    lo
}


/// Marking one more index.
pub proof fn lemma_marked_push(dels: Seq<usize>, x: usize)
    ensures
        marked(dels.push(x)) =~= marked(dels).insert(x as int),
{
    assert forall|d: int| marked(dels.push(x)).contains(d) <==> marked(dels).insert(
        x as int,
    ).contains(d) by {
        if marked(dels.push(x)).contains(d) {
            let k = choose|k: int| 0 <= k < dels.push(x).len() && dels.push(x)[k] == d;
            if k < dels.len() {
                assert(dels[k] == d);
            }
        }
        if marked(dels).contains(d) {
            let k = choose|k: int| 0 <= k < dels.len() && dels[k] == d;
            assert(dels.push(x)[k] == d);
        }
        if d == x {
            assert(dels.push(x)[dels.len() as int] == d);
        }
    }
}

/// Merges one chunk of the table with the relation.
///
/// A row whose join column is the subject of no pair is marked for deletion. Any
/// other row takes, in column `index + 1`, the object of the first pair with that
/// subject, and a copy of the row is made for each further such pair.
#[verifier::rlimit(30)]
pub fn merge_chunk(
    chunk: &mut [Vec<Field>],
    chunk_index: usize,
    relation: &Vec<(Field, Field)>,
    index: usize,
) -> (out: ChunkMerge)
    requires
        sorted_rows(rows_of(old(chunk)@), index as int),
        sorted_pairs(relation@),
        wide(rows_of(old(chunk)@), index as int),
        chunk_index * CHUNK + old(chunk)@.len() <= usize::MAX,
    ensures
        chunk_merged(
            rows_of(old(chunk)@),
            rows_of(final(chunk)@),
            chunk_index * CHUNK,
            relation@,
            index as int,
            out,
        ),
{
    let n: usize = chunk.len();
    let m: usize = relation.len();
    let ghost before = rows_of(chunk@);
    let ghost r = relation@;
    let ghost i = index as int;
    assert(chunk_index * CHUNK <= usize::MAX) by (nonlinear_arith)
        requires
            chunk_index * CHUNK + n <= usize::MAX,
    ;
    let base: usize = chunk_index * CHUNK;
    let mut deleted: Vec<usize> = Vec::new();
    let mut added: Vec<Vec<Field>> = Vec::new();
    proof {
        lemma_empty_multiset::<Seq<Field>>();
        assert(rows_of(added@) =~= Seq::<Seq<Field>>::empty());
        assert(before.take(0) =~= Seq::<Seq<Field>>::empty());
        assert(Multiset::<Seq<Field>>::empty().add(Multiset::empty()) =~= Multiset::<
            Seq<Field>,
        >::empty());
    }
    if n == 0 {
        assert(before.take(0) =~= before);
        return ChunkMerge { base, deleted, added };
    }
    assert(before[0].len() > index + 1);
    let mut j: usize = lower_bound(relation, chunk[0][index]);
    let mut k: usize = 0;
    while k < n
        invariant
            k <= n,
            n == before.len(),
            m == r.len(),
            r == relation@,
            i == index as int,
            base + n <= usize::MAX,
            rows_of(chunk@).len() == n,
            forall|q: int| k <= q < n ==> #[trigger] rows_of(chunk@)[q] == before[q],
            sorted_rows(before, i),
            sorted_pairs(r),
            wide(before, i),
            wide(rows_of(chunk@), i),
            wide(rows_of(added@), i),
            j <= m,
            k < n ==> forall|q: int| 0 <= q < j ==> (#[trigger] r[q]).0.0 < before[k as int][i].0,
            ascending(deleted@, base as int, base + k),
            forall|q: int|
                0 <= q < k ==> #[trigger] placed(
                    before,
                    rows_of(chunk@),
                    base as int,
                    r,
                    i,
                    marked(deleted@),
                    q,
                ),
            kept(rows_of(chunk@).take(k as int), base as int, marked(deleted@)).to_multiset().add(
                rows_of(added@).to_multiset(),
            ) == join_rows(before.take(k as int), r, i).to_multiset(),
        decreases n - k,
    {
        let ghost cur = rows_of(chunk@);
        let ghost row = before[k as int];
        let ghost dels = deleted@;
        let ghost added0 = rows_of(added@);
        assert(cur[k as int] == row);
        assert(row.len() > index + 1);
        let key: Field = chunk[k][index];
        while j < m && relation[j].0.0 < key.0
            invariant
                j <= m,
                m == r.len(),
                r == relation@,
                forall|q: int| 0 <= q < j ==> (#[trigger] r[q]).0.0 < key.0,
            decreases m - j,
        {
            j += 1;
        }
        proof {
            assert(cur.take(k + 1).drop_last() =~= cur.take(k as int));
            assert(before.take(k + 1).drop_last() =~= before.take(k as int));
            lemma_multiset_commutative(
                join_rows(before.take(k as int), r, i),
                extensions(row, r, i),
            );
        }
        if j >= m || relation[j].0.0 != key.0 {
            deleted.push(base + k);
            proof {
                assert forall|q: int| j <= q < r.len() implies (#[trigger] r[q]).0.0 > row[i].0 by {
                    assert(r[j as int].0.0 <= r[q].0.0);
                }
                lemma_extensions_run(row, r, i, j as int, j as int);
                assert(extensions(row, r, i) =~= Seq::<Seq<Field>>::empty());
                lemma_marked_push(dels, (base + k) as usize);
                lemma_kept_agree(cur.take(k as int), base as int, marked(dels), marked(deleted@));
                assert forall|q: int| 0 <= q < k + 1 implies #[trigger] placed(
                    before,
                    cur,
                    base as int,
                    r,
                    i,
                    marked(deleted@),
                    q,
                ) by {
                    if q < k {
                        assert(placed(before, cur, base as int, r, i, marked(dels), q));
                    } else {
                        assert forall|w: int| 0 <= w < r.len() implies (#[trigger] r[w]).0
                            != row[i] by {
                            if w < j {
                                assert(r[w].0.0 < row[i].0);
                            } else {
                                assert(r[w].0.0 > row[i].0);
                            }
                        }
                    }
                }
                assert(join_rows(before.take(k as int), r, i).to_multiset().add(Multiset::empty())
                    =~= join_rows(before.take(k as int), r, i).to_multiset());
            }
        } else {
            let first: Field = relation[j].1;
            let ghost cur_rows = chunk@;
            assert(chunk@[k as int]@.len() == chunk[k as int].len());
            chunk[k][index + 1] = first;
            let ghost first_row = row.update(i + 1, first);
            let ghost mut copies: Seq<Seq<Field>> = Seq::empty();
            assert(chunk@ =~= cur_rows.update(k as int, chunk@[k as int]));
            let mut e: usize = j + 1;
            assert(rows_of(added@) =~= added0 + copies);
            let ghost chunk_now = chunk@;
            while e < m && relation[e].0.0 == key.0
                invariant
                    chunk@ == chunk_now,
                    deleted@ == dels,
                    j < e <= m,
                    m == r.len(),
                    r == relation@,
                    i == index as int,
                    k < n,
                    rows_of(chunk@).len() == n,
                    rows_of(chunk@)[k as int] == first_row,
                    first_row == row.update(i + 1, first),
                    row.len() > i + 1,
                    forall|q: int| j <= q < e ==> (#[trigger] r[q]).0.0 == key.0,
                    copies.len() == e - j - 1,
                    forall|q: int|
                        0 <= q < copies.len() ==> #[trigger] copies[q] == row.update(
                            i + 1,
                            r[j + 1 + q].1,
                        ),
                    rows_of(added@) == added0 + copies,
                    wide(added0, i),
                decreases m - e,
            {
                let mut copy = copy_row(&chunk[k]);
                assert(copy@.len() == copy.len());
                copy[index + 1] = relation[e].1;
                proof {
                    let x = row.update(i + 1, r[e as int].1);
                    assert(copy@ =~= x);
                    assert(rows_of(added@.push(copy)) =~= (added0 + copies).push(x));
                    assert((added0 + copies).push(x) =~= added0 + copies.push(x));
                    copies = copies.push(x);
                }
                added.push(copy);
                e += 1;
            }
            proof {
                let now = rows_of(chunk@);
                lemma_empty_multiset::<Seq<Field>>();
                assert forall|q: int| 0 <= q < n && q != k implies #[trigger] now[q] == cur[q] by {
                    assert(chunk_now[q] == cur_rows[q]);
                }
                assert forall|q: int| e <= q < r.len() implies (#[trigger] r[q]).0.0 > row[i].0 by {
                    assert(r[e as int].0.0 <= r[q].0.0);
                    assert(r[j as int].0.0 <= r[e as int].0.0);
                }
                assert forall|q: int| j <= q < e implies (#[trigger] r[q]).0 == row[i] by {
                    assert(r[q].0.0 == key.0);
                }
                lemma_extensions_run(row, r, i, j as int, e as int);
                let ext = extensions(row, r, i);
                assert(ext =~= seq![first_row] + copies);
                lemma_multiset_commutative(seq![first_row], copies);
                lemma_multiset_commutative(added0, copies);
                lemma_push_multiset(Seq::<Seq<Field>>::empty(), first_row);
                assert(Seq::<Seq<Field>>::empty().push(first_row) =~= seq![first_row]);
                assert(now.take(k as int) =~= cur.take(k as int));
                assert(now.take(k + 1).drop_last() =~= now.take(k as int));
                assert(!marked(dels).contains(base + k)) by {
                    if marked(dels).contains(base + k) {
                        let w = choose|w: int| 0 <= w < dels.len() && dels[w] == base + k;
                        assert(dels[w] < base + k);
                    }
                }
                let kk = kept(cur.take(k as int), base as int, marked(dels));
                lemma_push_multiset(kk, first_row);
                assert(kk.to_multiset().add(Multiset::singleton(first_row)).add(
                    added0.to_multiset().add(copies.to_multiset()),
                ) =~= kk.to_multiset().add(added0.to_multiset()).add(
                    Multiset::<Seq<Field>>::empty().add(Multiset::singleton(first_row)).add(
                        copies.to_multiset(),
                    ),
                ));
                assert(wide(rows_of(added@), i)) by {
                    assert forall|q: int| 0 <= q < rows_of(added@).len() implies (
                    #[trigger] rows_of(added@)[q]).len() > i + 1 by {
                        if q >= added0.len() {
                            assert(rows_of(added@)[q] == copies[q - added0.len()]);
                        } else {
                            assert(rows_of(added@)[q] == added0[q]);
                        }
                    }
                }
                assert forall|q: int| 0 <= q < k + 1 implies #[trigger] placed(
                    before,
                    now,
                    base as int,
                    r,
                    i,
                    marked(dels),
                    q,
                ) by {
                    if q < k {
                        assert(placed(before, cur, base as int, r, i, marked(dels), q));
                        assert(now[q] == cur[q]);
                    } else {
                        assert forall|w: int| 0 <= w < j implies (#[trigger] r[w]).0 != row[i] by {
                            assert(r[w].0.0 < row[i].0);
                        }
                        assert(first_match(r, row[i], j as int));
                    }
                }
                assert(wide(now, i)) by {
                    assert forall|q: int| 0 <= q < now.len() implies (#[trigger] now[q]).len() > i
                        + 1 by {
                        if q != k {
                            assert(now[q] == cur[q]);
                        }
                    }
                }
            }
        }
        proof {
            if k + 1 < n {
                assert(before[k as int][i].0 <= before[k + 1][i].0);
            }
        }
        k += 1;
    }
    proof {
        assert(rows_of(chunk@).take(n as int) =~= rows_of(chunk@));
        assert(before.take(n as int) =~= before);
    }
    ChunkMerge { base, deleted, added }
}


/// `sort_unstable_by_key` of std sorts the table by column `index`: the rows end up
/// in ascending order of that column, and they are the rows that the table had.
#[verifier::external_body]
fn sort_rows(table: &mut Vec<Vec<Field>>, index: usize)
    requires
        wide(rows_of(old(table)@), index as int),
    ensures
        sorted_rows(rows_of(final(table)@), index as int),
        rows_of(final(table)@).to_multiset() == rows_of(old(table)@).to_multiset(),
{
    table.sort_unstable_by_key(|fields| fields[index].0);
}

/// `sort_unstable_by_key` of std sorts the relation by subject and object: the
/// pairs end up in ascending order, and they are the pairs that the relation had.
#[verifier::external_body]
fn sort_pairs(relation: &mut Vec<(Field, Field)>)
    ensures
        sorted_pairs(final(relation)@),
        final(relation)@.to_multiset() == old(relation)@.to_multiset(),
{
    relation.sort_unstable_by_key(|pair| (pair.0.0, pair.1.0));
}

/// Sorts the table by column `index`.
pub fn sort_table(table: &mut Vec<Vec<Field>>, index: usize)
    requires
        wide(rows_of(old(table)@), index as int),
    ensures
        sorted_rows(rows_of(final(table)@), index as int),
        rows_of(final(table)@).to_multiset() == rows_of(old(table)@).to_multiset(),
{
    sort_rows(table, index);
}

/// Sorts the relation by subject and object.
pub fn sort_relation(relation: &mut Vec<(Field, Field)>)
    ensures
        sorted_pairs(final(relation)@),
        final(relation)@.to_multiset() == old(relation)@.to_multiset(),
{
    sort_pairs(relation);
}

/// `rayon::join` runs `sort_table` and `sort_relation`, possibly in parallel, and
/// returns when both are done.
#[verifier::external_body]
fn sort_both(table: &mut Vec<Vec<Field>>, relation: &mut Vec<(Field, Field)>, index: usize)
    requires
        wide(rows_of(old(table)@), index as int),
    ensures
        sorted_rows(rows_of(final(table)@), index as int),
        rows_of(final(table)@).to_multiset() == rows_of(old(table)@).to_multiset(),
        sorted_pairs(final(relation)@),
        final(relation)@.to_multiset() == old(relation)@.to_multiset(),
{
    rayon::join(|| sort_table(table, index), || sort_relation(relation));
}

/// `par_sort_unstable_by_key` of `rayon` sorts the table by column `index`: the
/// rows end up in ascending order of that column, and they are the rows that the
/// table had.
#[verifier::external_body]
fn par_sort_rows(table: &mut Vec<Vec<Field>>, index: usize)
    requires
        wide(rows_of(old(table)@), index as int),
    ensures
        sorted_rows(rows_of(final(table)@), index as int),
        rows_of(final(table)@).to_multiset() == rows_of(old(table)@).to_multiset(),
{
    table.par_sort_unstable_by_key(|fields| fields[index].0);
}

/// `par_sort_unstable_by_key` of `rayon` sorts the relation by subject and object:
/// the pairs end up in ascending order, and they are the pairs that the relation
/// had.
#[verifier::external_body]
fn par_sort_pairs(relation: &mut Vec<(Field, Field)>)
    ensures
        sorted_pairs(final(relation)@),
        final(relation)@.to_multiset() == old(relation)@.to_multiset(),
{
    relation.par_sort_unstable_by_key(|pair| (pair.0.0, pair.1.0));
}

/// `par_chunks_mut` of `rayon` cuts the table into chunks of `size` rows, the last
/// of which may be shorter, and `merge_chunk` runs on each, in parallel, with the
/// chunk's number. `collect_into_vec` puts what the calls return into `merged`, in
/// the order of the chunks, in the place of what it held.
#[verifier::external_body]
fn merge_chunks(
    table: &mut Vec<Vec<Field>>,
    relation: &Vec<(Field, Field)>,
    index: usize,
    size: usize,
    merged: &mut Vec<ChunkMerge>,
)
    requires
        size == CHUNK,
        sorted_rows(rows_of(old(table)@), index as int),
        sorted_pairs(relation@),
        wide(rows_of(old(table)@), index as int),
    ensures
        all_merged(
            rows_of(old(table)@),
            rows_of(final(table)@),
            relation@,
            index as int,
            final(merged)@,
        ),
{
    table.par_chunks_mut(size).enumerate().map(
        |(chunk_index, chunk)| merge_chunk(chunk, chunk_index, relation, index),
    ).collect_into_vec(merged);
}

/// The indices from `from` on.
pub proof fn lemma_marked_skip(dels: Seq<usize>, from: int)
    requires
        0 <= from < dels.len(),
    ensures
        marked(dels.skip(from)) =~= marked(dels.skip(from + 1)).insert(dels[from] as int),
{
    let a = dels.skip(from);
    let b = dels.skip(from + 1);
    assert forall|d: int| marked(a).contains(d) <==> marked(b).insert(dels[from] as int).contains(
        d,
    ) by {
        if marked(a).contains(d) {
            let k = choose|k: int| 0 <= k < a.len() && a[k] == d;
            if k > 0 {
                assert(b[k - 1] == d);
            }
        }
        if marked(b).contains(d) {
            let k = choose|k: int| 0 <= k < b.len() && b[k] == d;
            assert(a[k + 1] == d);
        }
        if d == dels[from] {
            assert(a[0] == d);
        }
    }
}

/// The indices are in strictly descending order and lie between `from` and `to`.
pub open spec fn descending(dels: Seq<usize>, from: int, to: int) -> bool {
    &&& forall|a: int, b: int| 0 <= a < b < dels.len() ==> dels[a] > dels[b]
    &&& forall|a: int| 0 <= a < dels.len() ==> from <= #[trigger] dels[a] < to
}

/// Takes the rows at the indices `dels` out of the table, the highest index first.
/// Each leaves by `swap_remove`: the last row takes its place, so that the rows at
/// lower indices stay where they are.
pub fn remove_rows(table: &mut Vec<Vec<Field>>, dels: &Vec<usize>)
    requires
        descending(dels@, 0, old(table)@.len() as int),
    ensures
        rows_of(final(table)@).to_multiset() == kept(
            rows_of(old(table)@),
            0,
            marked(dels@),
        ).to_multiset(),
{
    let ghost orig = rows_of(table@);
    let ghost mut done: Set<int> = Set::empty();
    let ghost mut bound: int = orig.len() as int;
    let count: usize = dels.len();
    let mut j: usize = 0;
    proof {
        assert(marked(dels@.take(0)) =~= Set::<int>::empty());
        lemma_kept_all(orig, 0, done);
    }
    while j < count
        invariant
            j <= count,
            count == dels@.len(),
            orig.len() == old(table)@.len(),
            descending(dels@, 0, orig.len() as int),
            table@.len() == orig.len() - j,
            bound == if j > 0 {
                dels@[j - 1] as int
            } else {
                orig.len() as int
            },
            bound + j <= orig.len(),
            forall|q: int| 0 <= q < bound ==> #[trigger] rows_of(table@)[q] == orig[q],
            done == marked(dels@.take(j as int)),
            forall|d: int| done.contains(d) ==> d >= bound,
            rows_of(table@).to_multiset() == kept(orig, 0, done).to_multiset(),
        decreases count - j,
    {
        let idx: usize = dels[j];
        let ghost cur = rows_of(table@);
        assert(idx < bound);
        let _ = table.swap_remove(idx);
        proof {
            assert(rows_of(table@) =~= cur.update(idx as int, cur.last()).drop_last());
            lemma_swap_remove(cur, idx as int);
            lemma_kept_mark(orig, done, idx as int);
            assert(dels@.take(j + 1) =~= dels@.take(j as int).push(idx));
            lemma_marked_push(dels@.take(j as int), idx);
            done = done.insert(idx as int);
            bound = idx as int;
        }
        j += 1;
    }
    proof {
        assert(dels@.take(count as int) =~= dels@);
    }
}

/// Where nothing is marked, every row stays.
pub proof fn lemma_kept_all(rows: Seq<Seq<Field>>, base: int, dels: Set<int>)
    requires
        forall|x: int| base <= x < base + rows.len() ==> !dels.contains(x),
    ensures
        kept(rows, base, dels) == rows,
    decreases rows.len(),
{
    if rows.len() > 0 {
        lemma_kept_all(rows.drop_last(), base, dels);
        assert(rows.drop_last().push(rows.last()) =~= rows);
    }
}


/// Puts together what the chunks leave to be done: the indices of all rows that
/// are marked, the highest first, and all copies.
#[verifier::rlimit(30)]
fn gather(
    merged: &mut Vec<ChunkMerge>,
    Ghost(before): Ghost<Seq<Seq<Field>>>,
    Ghost(after): Ghost<Seq<Seq<Field>>>,
    Ghost(r): Ghost<Seq<(Field, Field)>>,
    Ghost(i): Ghost<int>,
) -> (out: (Vec<usize>, Vec<Vec<Field>>))
    requires
        all_merged(before, after, r, i, old(merged)@),
    ensures
        final(merged)@.len() == 0,
        descending(out.0@, 0, after.len() as int),
        kept(after, 0, marked(out.0@)).to_multiset().add(rows_of(out.1@).to_multiset())
            == join_rows(before, r, i).to_multiset(),
{
    let ghost outs = merged@;
    let ghost n = before.len() as int;
    let mut dels: Vec<usize> = Vec::new();
    let mut adds: Vec<Vec<Field>> = Vec::new();
    proof {
        lemma_empty_multiset::<Seq<Field>>();
        assert(after.skip(n) =~= Seq::<Seq<Field>>::empty());
        assert(before.skip(n) =~= Seq::<Seq<Field>>::empty());
        assert(rows_of(adds@) =~= Seq::<Seq<Field>>::empty());
        assert(Multiset::<Seq<Field>>::empty().add(Multiset::empty()) =~= Multiset::<
            Seq<Field>,
        >::empty());
    }
    loop
        invariant
            n == before.len(),
            n == after.len(),
            all_merged(before, after, r, i, outs),
            merged@ == outs.take(merged@.len() as int),
            merged@.len() <= outs.len(),
            descending(dels@, chunk_start(merged@.len() as int, n), n),
            kept(
                after.skip(chunk_start(merged@.len() as int, n)),
                chunk_start(merged@.len() as int, n),
                marked(dels@),
            ).to_multiset().add(rows_of(adds@).to_multiset()) == join_rows(
                before.skip(chunk_start(merged@.len() as int, n)),
                r,
                i,
            ).to_multiset(),
        ensures
            merged@.len() == 0,
        decreases merged@.len(),
    {
        let ghost c = merged@.len() as int;
        let ghost s = chunk_start(c, n);
        let ghost lo = chunk_start(c - 1, n);
        let ghost dels0 = dels@;
        let ghost adds0 = rows_of(adds@);
        match merged.pop() {
            None => {
                break ;
            },
            Some(cm) => {
                assert(cm == outs[c - 1]);
                let ghost old_rows = before.subrange(lo, s);
                let ghost new_rows = after.subrange(lo, s);
                assert(chunk_merged(old_rows, new_rows, (c - 1) * CHUNK, r, i, cm));
                assert(lo == (c - 1) * CHUNK);
                let ChunkMerge { base: _, deleted, added } = cm;
                let mut added = added;
                let ghost marks = deleted@;
                let mut q: usize = deleted.len();
                proof {
                    assert(marked(marks.skip(q as int)) =~= Set::<int>::empty());
                    assert(marked(dels0).union(Set::<int>::empty()) =~= marked(dels0));
                }
                while q > 0
                    invariant
                        q <= marks.len(),
                        marks == deleted@,
                        lo <= s <= n,
                        ascending(marks, lo, s),
                        descending(dels0, s, n),
                        descending(
                            dels@,
                            if q < marks.len() {
                                marks[q as int] as int
                            } else {
                                s
                            },
                            n,
                        ),
                        marked(dels@) == marked(dels0).union(marked(marks.skip(q as int))),
                    decreases q,
                {
                    q -= 1;
                    let ghost sofar = dels@;
                    dels.push(deleted[q]);
                    proof {
                        lemma_marked_push(sofar, marks[q as int]);
                        lemma_marked_skip(marks, q as int);
                        assert(marked(sofar).insert(marks[q as int] as int) =~= marked(
                            dels0,
                        ).union(marked(marks.skip(q as int))));
                    }
                }
                let ghost added_rows = rows_of(added@);
                adds.append(&mut added);
                proof {
                    assert(marks.skip(0) =~= marks);
                    let all = marked(dels@);
                    let rest = after.skip(s);
                    assert(after.skip(lo) =~= new_rows + rest);
                    assert(before.skip(lo) =~= old_rows + before.skip(s));
                    lemma_kept_concat(new_rows, rest, lo, all);
                    assert forall|x: int| lo <= x < lo + new_rows.len() implies all.contains(x)
                        == marked(marks).contains(x) by {
                        if marked(dels0).contains(x) {
                            let w = choose|w: int| 0 <= w < dels0.len() && dels0[w] == x;
                            assert(dels0[w] >= s);
                        }
                    }
                    lemma_kept_agree(new_rows, lo, all, marked(marks));
                    assert forall|x: int| s <= x < s + rest.len() implies all.contains(x)
                        == marked(dels0).contains(x) by {
                        if marked(marks).contains(x) {
                            let w = choose|w: int| 0 <= w < marks.len() && marks[w] == x;
                            assert(marks[w] < s);
                        }
                    }
                    lemma_kept_agree(rest, s, all, marked(dels0));
                    lemma_join_concat(old_rows, before.skip(s), r, i);
                    lemma_multiset_commutative(
                        kept(new_rows, lo, marked(marks)),
                        kept(rest, s, marked(dels0)),
                    );
                    assert(rows_of(adds@) =~= adds0 + added_rows);
                    lemma_multiset_commutative(adds0, added_rows);
                    let k1 = kept(new_rows, lo, marked(marks)).to_multiset();
                    let k2 = kept(rest, s, marked(dels0)).to_multiset();
                    assert(k1.add(k2).add(adds0.to_multiset().add(added_rows.to_multiset()))
                        =~= k1.add(added_rows.to_multiset()).add(k2.add(adds0.to_multiset())));
                }
            },
        }
    }
    proof {
        assert(after.skip(0) =~= after);
        assert(before.skip(0) =~= before);
    }
    (dels, adds)
}

/// The sort-merge join engine.
pub struct Impl {
    improved: bool,
    join_table: Vec<Vec<Field>>,
    del_buffer: Vec<ChunkMerge>,
}

impl Impl {
    /// Whether this is the improved variant, which sorts in parallel.
    pub closed spec fn is_improved(&self) -> bool {
        self.improved
    }

    /// An engine with an empty table.
    pub fn new(improved: bool) -> (engine: Impl)
        ensures
            engine.is_improved() == improved,
            engine.rows() == Seq::<Seq<Field>>::empty(),
    {
        let engine = Impl { improved, join_table: Vec::new(), del_buffer: Vec::new() };
        assert(rows_of(engine.join_table@) =~= Seq::<Seq<Field>>::empty());
        engine
    }
}

impl Impl {
    /// Hands the table over.
    pub fn into_table(self) -> (table: Vec<Vec<Field>>)
        ensures
            rows_of(table@) == self.rows(),
    {
        self.join_table
    }
}

impl JoinAlgo for Impl {
    closed spec fn rows(&self) -> Seq<Seq<Field>> {
        rows_of(self.join_table@)
    }

    /// Every subject finds the rows that hold it.
    open spec fn reach(&self, range: (Field, Field)) -> int {
        usize::MAX + 1
    }

    /// The range plays no part.
    open spec fn accepts(&self, range: (Field, Field)) -> bool {
        true
    }

    fn join(
        &mut self,
        settings: &Settings,
        index: usize,
        relation: Vec<(Field, Field)>,
        field_range: (Field, Field),
    ) {
        if index == 0 {
            seed(&mut self.join_table, settings.join_count, &relation);
            return ;
        }
        let mut relation = relation;
        let ghost t0 = rows_of(self.join_table@);
        let ghost r0 = relation@;
        if self.improved {
            par_sort_rows(&mut self.join_table, index);
            par_sort_pairs(&mut relation);
        } else {
            sort_both(&mut self.join_table, &mut relation, index);
        }
        let ghost t1 = rows_of(self.join_table@);
        let ghost r1 = relation@;
        proof {
            broadcast use group_to_multiset_ensures;

            assert(wide(t1, index as int)) by {
                assert forall|k: int| 0 <= k < t1.len() implies (#[trigger] t1[k]).len() > index
                    + 1 by {
                    assert(t1.to_multiset().count(t1[k]) > 0);
                    assert(t0.contains(t1[k]));
                }
            }
        }
        merge_chunks(&mut self.join_table, &relation, index, CHUNK, &mut self.del_buffer);
        let ghost t2 = rows_of(self.join_table@);
        let (dels, adds) = gather(
            &mut self.del_buffer,
            Ghost(t1),
            Ghost(t2),
            Ghost(r1),
            Ghost(index as int),
        );
        remove_rows(&mut self.join_table, &dels);
        let ghost stay = rows_of(self.join_table@);
        let mut adds = adds;
        let ghost copies = rows_of(adds@);
        self.join_table.append(&mut adds);
        proof {
            assert(rows_of(self.join_table@) =~= stay + copies);
            lemma_multiset_commutative(stay, copies);
            lemma_join_perm_table(t1, t0, r1, index as int);
            lemma_join_perm_relation(t0, r1, r0, index as int);
            lemma_probed_all(r0, usize::MAX + 1);
        }
    }

    fn results(&self) -> (table: &Vec<Vec<Field>>) {
        &self.join_table
    }
}

} // verus!
