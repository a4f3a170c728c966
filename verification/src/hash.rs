//! The hash join: the table is hashed by its join column, and the relation probes it.
//!
//! The plain variant keeps one hash table. The improved variant cuts the range of
//! the relation's subjects into eight buckets of equal width, fills one hash table
//! for each bucket in parallel, and probes in parallel.

use crate::input::Field;
use crate::join::{
    below, join_rows, lemma_join_by_pairs, lemma_sum_probed, matched, matched_of, probed,
    rows_of, seed, wide, JoinAlgo, Settings,
};
use crate::sums::{
    additive, lemma_additive_perm, lemma_empty_multiset, lemma_push_multiset, lemma_sum_pointwise,
    sum,
};
use core::ops::Range;
use rayon::iter::{
    IndexedParallelIterator, IntoParallelIterator, IntoParallelRefIterator,
    IntoParallelRefMutIterator, ParallelIterator,
};
use std::collections::HashMap;
use vstd::multiset::*;
use vstd::prelude::*;
use vstd::seq_lib::*;

verus! {

/// A hash table from the join column's offset to the rows that hold it.
pub type Table = HashMap<usize, Vec<Vec<Field>>>;

/// The least width of a bucket.
pub const MIN_BUCKET: usize = 128;

/// The rows that `table` holds for `key`.
pub open spec fn bucket(table: Map<usize, Vec<Vec<Field>>>, key: usize) -> Seq<Seq<Field>> {
    if table.contains_key(key) {
        rows_of(table[key]@)
    } else {
        Seq::empty()
    }
}

/// The rows of `t` whose column `i` is `key`, in the order of `t`.
pub open spec fn select(t: Seq<Seq<Field>>, key: usize, i: int) -> Seq<Seq<Field>>
    decreases t.len(),
{
    if t.len() == 0 {
        Seq::empty()
    } else {
        let before = select(t.drop_last(), key, i);
        if t.last()[i].0 == key {
            before.push(t.last())
        } else {
            before
        }
    }
}

/// The rows of `s`, each with `o` in column `c`.
pub open spec fn updated(s: Seq<Seq<Field>>, c: int, o: Field) -> Seq<Seq<Field>> {
    s.map_values(|row: Seq<Field>| row.update(c, o))
}

/// `key` lies in `range`.
pub open spec fn within(range: Range<Field>, key: usize) -> bool {
    range.start.0 <= key < range.end.0
}

/// The ranges start at offset 0 and come in ascending order.
pub open spec fn ordered(ranges: Seq<Range<Field>>) -> bool {
    &&& ranges.len() == 8
    &&& ranges[0].start.0 == 0
    &&& forall|a: int, b: int| 0 <= a <= b < 8 ==> ranges[a].start.0 <= ranges[b].start.0
}

/// Bucket `b` is the last whose range starts at or below `key`.
pub open spec fn owns(ranges: Seq<Range<Field>>, b: int, key: usize) -> bool {
    &&& 0 <= b < 8
    &&& ranges[b].start.0 <= key
    &&& (b == 7 || key < ranges[b + 1].start.0)
}

/// The bucket that a probe for `key` looks into.
pub open spec fn owner(ranges: Seq<Range<Field>>, key: usize) -> int {
    choose|b: int| owns(ranges, b, key)
}

/// The rows that a probe with the pair `p` finds: those filed under its subject in
/// the bucket that owns it, each with the object of `p` in column `i + 1`.
pub open spec fn probe_rows(
    ranges: Seq<Range<Field>>,
    tables: Seq<Table>,
    i: int,
    p: (Field, Field),
) -> Seq<Seq<Field>> {
    updated(bucket(tables[owner(ranges, p.0.0)]@, p.0.0), i + 1, p.1)
}

/// The rows that a probe with a pair finds, as a multiset.
pub open spec fn probe_of(ranges: Seq<Range<Field>>, tables: Seq<Table>, i: int) -> spec_fn(
    (Field, Field),
) -> Multiset<Seq<Field>> {
    |p: (Field, Field)| probe_rows(ranges, tables, i, p).to_multiset()
}

/// `table` holds, for every key in `range`, the rows of `t` with that key in
/// column `i`, and nothing for any other key.
pub open spec fn filled(
    table: Map<usize, Vec<Vec<Field>>>,
    range: Range<Field>,
    t: Seq<Seq<Field>>,
    i: int,
) -> bool {
    &&& forall|key: usize| #[trigger]
        bucket(table, key).to_multiset() == if within(range, key) {
            select(t, key, i).to_multiset()
        } else {
            Multiset::empty()
        }
    &&& forall|key: usize| wide(#[trigger] bucket(table, key), i)
}

/// The tables are ready to be probed: the bucket that owns a key below `limit`
/// holds the rows of `t` with that key in column `i`, and the bucket that owns a
/// key from `limit` on holds nothing for it.
pub open spec fn built(
    tables: Seq<Table>,
    ranges: Seq<Range<Field>>,
    t: Seq<Seq<Field>>,
    i: int,
    limit: int,
) -> bool {
    &&& tables.len() == 8
    &&& ordered(ranges)
    &&& forall|key: usize, b: int|
        owns(ranges, b, key) ==> #[trigger] bucket(tables[b]@, key).to_multiset() == if key
            < limit {
            select(t, key, i).to_multiset()
        } else {
            Multiset::empty()
        }
    &&& all_wide(tables, i)
}

/// The width of a bucket for subjects from `lo` to `hi`: an eighth of the range,
/// and 128 at the least.
pub open spec fn per_bucket(lo: int, hi: int) -> int {
    let eighth = (hi - lo + 1) / 8;
    if eighth > MIN_BUCKET {
        eighth
    } else {
        MIN_BUCKET as int
    }
}

/// The end of bucket `k`, which no offset exceeds.
pub open spec fn bucket_end(lo: int, hi: int, k: int) -> int {
    let end = lo + (k + 1) * per_bucket(lo, hi);
    if end > usize::MAX {
        usize::MAX as int
    } else {
        end
    }
}

/// Computes the end of the last of the eight buckets for subjects from `lo` to
/// `hi`.
pub fn bucket_limit(lo: Field, hi: Field) -> (limit: usize)
    requires
        lo.0 <= hi.0,
    ensures
        limit == bucket_end(lo.0 as int, hi.0 as int, 7),
{
    let span: usize = hi.0 - lo.0;
    let eighth: usize = span / 8 + (span % 8 + 1) / 8;
    let per: usize = if eighth > MIN_BUCKET {
        eighth
    } else {
        MIN_BUCKET
    };
    assert(per == per_bucket(lo.0 as int, hi.0 as int));
    assert((7 + 1) * per == 8 * per) by (nonlinear_arith);
    match per.checked_mul(8) {
        Some(all) => match lo.0.checked_add(all) {
            Some(end) => end,
            None => usize::MAX,
        },
        None => usize::MAX,
    }
}

/// The offset from which on a subject finds no row: the end of the last bucket in
/// the improved variant, the sentinel in the plain one.
pub open spec fn hash_reach(improved: bool, range: (Field, Field)) -> int {
    if improved {
        bucket_end(range.0.0 as int, range.1.0 as int, 7)
    } else {
        usize::MAX as int
    }
}

/// The bucket that owns a key is the only one that does.
pub proof fn lemma_owner(ranges: Seq<Range<Field>>, key: usize, b: int)
    requires
        ordered(ranges),
        owns(ranges, b, key),
    ensures
        owner(ranges, key) == b,
{
    let c = owner(ranges, key);
    assert(owns(ranges, c, key));
    if c < b {
        assert(ranges[c + 1].start.0 <= ranges[b].start.0);
    } else if b < c {
        assert(ranges[b + 1].start.0 <= ranges[c].start.0);
    }
}

/// The rows of a table that hold `key` in column `i`, as a multiset.
pub open spec fn select_of(key: usize, i: int) -> spec_fn(Seq<Seq<Field>>) -> Multiset<Seq<Field>> {
    |t: Seq<Seq<Field>>| select(t, key, i).to_multiset()
}

/// The row, where it holds `key` in column `i`.
pub open spec fn keyed(key: usize, i: int) -> spec_fn(Seq<Field>) -> Multiset<Seq<Field>> {
    |row: Seq<Field>|
        if row[i].0 == key {
            Multiset::singleton(row)
        } else {
            Multiset::empty()
        }
}

/// Which rows hold a key does not depend on the order of the table.
pub proof fn lemma_select_perm(t1: Seq<Seq<Field>>, t2: Seq<Seq<Field>>, key: usize, i: int)
    requires
        t1.to_multiset() == t2.to_multiset(),
    ensures
        select(t1, key, i).to_multiset() == select(t2, key, i).to_multiset(),
{
    let g = select_of(key, i);
    let h = keyed(key, i);
    assert(additive(g, h)) by {
        lemma_empty_multiset::<Seq<Field>>();
        assert forall|s: Seq<Seq<Field>>, x: Seq<Field>| #[trigger] g(s.push(x)) == g(s).add(
            h(x),
        ) by {
            assert(s.push(x).drop_last() =~= s);
            if x[i].0 == key {
                lemma_push_multiset(select(s, key, i), x);
            } else {
                assert(g(s).add(Multiset::empty()) =~= g(s));
            }
        }
    }
    lemma_additive_perm(g, h, t1, t2);
}

/// The rows, each with `o` in column `c`, as a multiset.
pub open spec fn updated_of(c: int, o: Field) -> spec_fn(Seq<Seq<Field>>) -> Multiset<Seq<Field>> {
    |s: Seq<Seq<Field>>| updated(s, c, o).to_multiset()
}

/// The row with `o` in column `c`.
pub open spec fn update_of(c: int, o: Field) -> spec_fn(Seq<Field>) -> Multiset<Seq<Field>> {
    |row: Seq<Field>| Multiset::singleton(row.update(c, o))
}

/// Rows that are the same but for their order stay so when a column is set.
pub proof fn lemma_updated_perm(s1: Seq<Seq<Field>>, s2: Seq<Seq<Field>>, c: int, o: Field)
    requires
        s1.to_multiset() == s2.to_multiset(),
    ensures
        updated(s1, c, o).to_multiset() == updated(s2, c, o).to_multiset(),
{
    let g = updated_of(c, o);
    let h = update_of(c, o);
    assert(additive(g, h)) by {
        lemma_empty_multiset::<Seq<Field>>();
        assert(updated(Seq::empty(), c, o) =~= Seq::empty());
        assert forall|s: Seq<Seq<Field>>, x: Seq<Field>| #[trigger] g(s.push(x)) == g(s).add(
            h(x),
        ) by {
            assert(updated(s.push(x), c, o) =~= updated(s, c, o).push(x.update(c, o)));
            lemma_push_multiset(updated(s, c, o), x.update(c, o));
        }
    }
    lemma_additive_perm(g, h, s1, s2);
}

/// The rows that a pair matches are the rows that hold its subject, with its
/// object set.
pub proof fn lemma_matched_select(t: Seq<Seq<Field>>, p: (Field, Field), i: int)
    ensures
        matched(t, p, i) == updated(select(t, p.0.0, i), i + 1, p.1),
    decreases t.len(),
{
    if t.len() == 0 {
        assert(updated(Seq::empty(), i + 1, p.1) =~= Seq::empty());
    } else {
        lemma_matched_select(t.drop_last(), p, i);
        let s = select(t.drop_last(), p.0.0, i);
        if p.0 == t.last()[i] {
            assert(updated(s.push(t.last()), i + 1, p.1) =~= updated(s, i + 1, p.1).push(
                t.last().update(i + 1, p.1),
            ));
        }
    }
}

/// Probing tables that are built for `t` gives the rows of the join step of `t`
/// with the pairs below the limit.
pub proof fn lemma_probe_join(
    tables: Seq<Table>,
    ranges: Seq<Range<Field>>,
    t: Seq<Seq<Field>>,
    r: Seq<(Field, Field)>,
    i: int,
    limit: int,
)
    requires
        built(tables, ranges, t, i, limit),
    ensures
        sum(r, probe_of(ranges, tables, i)) == join_rows(t, probed(r, limit), i).to_multiset(),
{
    lemma_join_by_pairs(t, probed(r, limit), i);
    lemma_sum_probed(r, limit, matched_of(t, i));
    assert forall|k: int| 0 <= k < r.len() implies probe_of(ranges, tables, i)(#[trigger] r[k])
        == below(limit, matched_of(t, i))(r[k]) by {
        let p = r[k];
        let key = p.0.0;
        lemma_some_owner(ranges, key);
        let b = owner(ranges, key);
        let found = bucket(tables[b]@, key);
        if key < limit {
            lemma_updated_perm(found, select(t, key, i), i + 1, p.1);
            lemma_matched_select(t, p, i);
        } else {
            broadcast use group_to_multiset_ensures;

            assert(found.len() == found.to_multiset().len());
            assert(updated(found, i + 1, p.1) =~= Seq::empty());
            lemma_empty_multiset::<Seq<Field>>();
        }
    }
    lemma_sum_pointwise(r, probe_of(ranges, tables, i), below(limit, matched_of(t, i)));
}

/// Every key has an owner.
pub proof fn lemma_some_owner(ranges: Seq<Range<Field>>, key: usize)
    requires
        ordered(ranges),
    ensures
        owns(ranges, owner(ranges, key), key),
{
    if ranges[7].start.0 <= key {
        assert(owns(ranges, 7, key));
    } else if ranges[6].start.0 <= key {
        assert(owns(ranges, 6, key));
    } else if ranges[5].start.0 <= key {
        assert(owns(ranges, 5, key));
    } else if ranges[4].start.0 <= key {
        assert(owns(ranges, 4, key));
    } else if ranges[3].start.0 <= key {
        assert(owns(ranges, 3, key));
    } else if ranges[2].start.0 <= key {
        assert(owns(ranges, 2, key));
    } else if ranges[1].start.0 <= key {
        assert(owns(ranges, 1, key));
    } else {
        assert(owns(ranges, 0, key));
    }
}

/// Files `row` under `key`.
pub fn file_row(table: &mut Table, key: usize, row: Vec<Field>)
    ensures
        bucket(final(table)@, key) == bucket(old(table)@, key).push(row@),
        forall|other: usize|
            other != key ==> bucket(final(table)@, other) == bucket(old(table)@, other),
{
    broadcast use vstd::std_specs::hash::group_hash_axioms;

    let ghost before = bucket(table@, key);
    let rows = table.entry(key).or_insert(Vec::new());
    assert(rows_of(rows@) == before);
    rows.push(row);
    assert(rows_of(rows@) =~= before.push(row@));
}

/// A copy of `row`.
pub fn copy_row(row: &Vec<Field>) -> (copy: Vec<Field>)
    ensures
        copy@ == row@,
{
    let n: usize = row.len();
    let mut copy: Vec<Field> = Vec::with_capacity(n);
    let mut k: usize = 0;
    while k < n
        invariant
            k <= n,
            n == row@.len(),
            copy@ == row@.take(k as int),
        decreases n - k,
    {
        copy.push(row[k]);
        assert(row@.take(k + 1) =~= row@.take(k as int).push(row@[k as int]));
        k += 1;
    }
    assert(row@.take(n as int) =~= row@);
    copy
}

/// The index of the bucket that owns `key`, found by bisection.
pub fn owning_bucket(ranges: &[Range<Field>; 8], key: Field) -> (b: usize)
    requires
        ordered(ranges@),
    ensures
        owns(ranges@, b as int, key.0),
{
    let mut lo: usize = 1;
    let mut hi: usize = 8;
    while lo < hi
        invariant
            1 <= lo <= hi <= 8,
            ordered(ranges@),
            ranges@[lo - 1].start.0 <= key.0,
            hi == 8 || key.0 < ranges@[hi as int].start.0,
        decreases hi - lo,
    {
        let mid: usize = lo + (hi - lo) / 2;
        if ranges[mid].start.0 <= key.0 {
            lo = mid + 1;
        } else {
            hi = mid;
        }
    }
    lo - 1
}

/// The rows that the pair of `subj` and `obj` extends: a copy of each row that is
/// filed under `subj`, with `obj` in column `index + 1`.
pub fn probe(
    ranges: &[Range<Field>; 8],
    tables: &[Table; 8],
    index: usize,
    subj: Field,
    obj: Field,
) -> (found: Vec<Vec<Field>>)
    requires
        ordered(ranges@),
        all_wide(tables@, index as int),
    ensures
        rows_of(found@) == probe_rows(ranges@, tables@, index as int, (subj, obj)),
{
    broadcast use vstd::std_specs::hash::group_hash_axioms;

    let b: usize = owning_bucket(ranges, subj);
    proof {
        lemma_owner(ranges@, subj.0, b as int);
    }
    let mut found: Vec<Vec<Field>> = Vec::new();
    let key: usize = subj.0;
    match tables[b].get(&key) {
        None => {
            assert(rows_of(found@) =~= probe_rows(ranges@, tables@, index as int, (subj, obj)));
        },
        Some(rows) => {
            let ghost filed = bucket(tables@[b as int]@, key);
            assert(filed == rows_of(rows@));
            let n: usize = rows.len();
            let mut k: usize = 0;
            while k < n
                invariant
                    k <= n,
                    n == rows@.len(),
                    filed == rows_of(rows@),
                    wide(filed, index as int),
                    rows_of(found@) == updated(filed, index + 1, obj).take(k as int),
                decreases n - k,
            {
                assert(filed[k as int].len() > index + 1);
                let mut fields = copy_row(&rows[k]);
                assert(fields@.len() == fields.len());
                fields[index + 1] = obj;
                let ghost before = rows_of(found@);
                found.push(fields);
                proof {
                    let all = updated(filed, index + 1, obj);
                    assert(rows_of(found@) =~= before.push(all[k as int]));
                    assert(all.take(k + 1) =~= all.take(k as int).push(all[k as int]));
                }
                k += 1;
            }
            assert(updated(filed, index + 1, obj).take(n as int) =~= updated(
                filed,
                index + 1,
                obj,
            ));
        },
    }
    found
}


/// All eight tables are empty.
pub open spec fn all_clear(tables: Seq<Table>) -> bool {
    forall|b: int| 0 <= b < 8 ==> (#[trigger] tables[b])@ == Map::<usize, Vec<Vec<Field>>>::empty()
}

/// Every table is filled for the range of the same index.
pub open spec fn all_filled(
    tables: Seq<Table>,
    ranges: Seq<Range<Field>>,
    t: Seq<Seq<Field>>,
    i: int,
) -> bool {
    forall|b: int| 0 <= b < 8 ==> filled((#[trigger] tables[b])@, ranges[b], t, i)
}

/// Every row in every table is long enough to hold column `i + 1`.
pub open spec fn all_wide(tables: Seq<Table>, i: int) -> bool {
    forall|key: usize, b: int| 0 <= b < 8 ==> wide(#[trigger] bucket(tables[b]@, key), i)
}

/// Empties a table.
pub fn clear_table(table: &mut Table)
    ensures
        final(table)@ == Map::<usize, Vec<Vec<Field>>>::empty(),
{
    table.clear();
}

/// Files a copy of every row of `rows` whose column `index` lies in `range`.
pub fn fill_table(range: &Range<Field>, table: &mut Table, rows: &Vec<Vec<Field>>, index: usize)
    requires
        wide(rows_of(rows@), index as int),
        old(table)@ == Map::<usize, Vec<Vec<Field>>>::empty(),
    ensures
        filled(final(table)@, *range, rows_of(rows@), index as int),
{
    let n: usize = rows.len();
    let ghost t = rows_of(rows@);
    let mut k: usize = 0;
    proof {
        lemma_empty_multiset::<Seq<Field>>();
    }
    while k < n
        invariant
            k <= n,
            n == rows@.len(),
            t == rows_of(rows@),
            wide(t, index as int),
            filled(table@, *range, t.take(k as int), index as int),
        decreases n - k,
    {
        assert(t[k as int].len() > index + 1);
        let key: usize = rows[k][index].0;
        let ghost before = table@;
        if range.start.0 <= key && key < range.end.0 {
            let fields = copy_row(&rows[k]);
            file_row(table, key, fields);
        }
        proof {
            assert(t.take(k + 1).drop_last() =~= t.take(k as int));
            assert forall|other: usize| #[trigger]
                bucket(table@, other).to_multiset() == if within(*range, other) {
                    select(t.take(k + 1), other, index as int).to_multiset()
                } else {
                    Multiset::empty()
                } by {
                assert(bucket(before, other).to_multiset() == if within(*range, other) {
                    select(t.take(k as int), other, index as int).to_multiset()
                } else {
                    Multiset::empty()
                });
                if other == key && within(*range, key) {
                    lemma_push_multiset(bucket(before, key), t[k as int]);
                    lemma_push_multiset(select(t.take(k as int), key, index as int), t[k as int]);
                }
            }
            assert forall|other: usize| wide(#[trigger] bucket(table@, other), index as int) by {
                assert(wide(bucket(before, other), index as int));
            }
        }
        k += 1;
    }
    assert(t.take(n as int) =~= t);
}

/// `par_iter_mut` of `rayon` hands out the eight tables, and `for_each` runs
/// `clear_table` on each of them, in parallel. Every table is empty then.
#[verifier::external_body]
fn clear_tables(tables: &mut [Table; 8])
    ensures
        all_clear(final(tables)@),
{
    tables.par_iter_mut().for_each(|table| clear_table(table));
}

/// `zip` of `rayon` pairs each range with the table of the same index, and
/// `for_each` runs `fill_table` on each pair, in parallel. Every table is then
/// filled for its range.
#[verifier::external_body]
fn fill_tables(
    ranges: &[Range<Field>; 8],
    tables: &mut [Table; 8],
    rows: &Vec<Vec<Field>>,
    index: usize,
)
    requires
        wide(rows_of(rows@), index as int),
        all_clear(old(tables)@),
    ensures
        all_filled(final(tables)@, ranges@, rows_of(rows@), index as int),
{
    ranges.par_iter().zip(tables.par_iter_mut()).for_each(
        |(range, table)| fill_table(range, table, rows, index),
    );
}

/// `flat_map_iter` of `rayon` runs `probe` on every pair of the relation, in
/// parallel, and `collect` gathers the rows that the probes find. The rows
/// gathered are those of all the probes together; their order is left open.
#[verifier::external_body]
fn probe_all(
    ranges: &[Range<Field>; 8],
    tables: &[Table; 8],
    index: usize,
    relation: Vec<(Field, Field)>,
) -> (found: Vec<Vec<Field>>)
    requires
        ordered(ranges@),
        all_wide(tables@, index as int),
    ensures
        rows_of(found@).to_multiset() == sum(relation@, probe_of(ranges@, tables@, index as int)),
{
    relation.into_par_iter().flat_map_iter(
        |(subj, obj)| probe(ranges, tables, index, subj, obj),
    ).collect()
}

/// Lets go of a row.
pub fn drop_row(row: Vec<Field>) {
}

/// `into_par_iter` of `rayon` hands out the rows, and `for_each` runs `drop_row`
/// on each of them, in parallel. Nothing is left of the rows.
#[verifier::external_body]
fn drop_rows(rows: Vec<Vec<Field>>) {
    rows.into_par_iter().for_each(|row| drop_row(row));
}

/// The hash join engine.
pub struct Impl {
    improved: bool,
    join_table: Vec<Vec<Field>>,
    field_ranges: [Range<Field>; 8],
    hash_tables: [Table; 8],
}

impl Impl {
    /// Whether this is the improved variant.
    pub closed spec fn is_improved(&self) -> bool {
        self.improved
    }

    /// An engine with an empty table.
    pub fn new(improved: bool) -> (engine: Impl)
        ensures
            engine.is_improved() == improved,
            engine.rows() == Seq::<Seq<Field>>::empty(),
    {
        let engine = Impl {
            improved,
            join_table: Vec::new(),
            field_ranges: [
                Field::invalid()..Field::invalid(),
                Field::invalid()..Field::invalid(),
                Field::invalid()..Field::invalid(),
                Field::invalid()..Field::invalid(),
                Field::invalid()..Field::invalid(),
                Field::invalid()..Field::invalid(),
                Field::invalid()..Field::invalid(),
                Field::invalid()..Field::invalid(),
            ],
            hash_tables: [
                HashMap::new(),
                HashMap::new(),
                HashMap::new(),
                HashMap::new(),
                HashMap::new(),
                HashMap::new(),
                HashMap::new(),
                HashMap::new(),
            ],
        };
        assert(rows_of(engine.join_table@) =~= Seq::<Seq<Field>>::empty());
        engine
    }

    /// Moves every row of the table into the first hash table, which then owns
    /// every offset but the sentinel.
    #[verifier::rlimit(30)]
    fn simple_hash(&mut self, index: usize)
        requires
            wide(rows_of(old(self).join_table@), index as int),
            all_clear(old(self).hash_tables@),
        ensures
            final(self).improved == old(self).improved,
            built(
                final(self).hash_tables@,
                final(self).field_ranges@,
                rows_of(old(self).join_table@),
                index as int,
                usize::MAX as int,
            ),
    {
        let ghost t0 = rows_of(self.join_table@);
        let ghost mut popped: Seq<Seq<Field>> = Seq::empty();
        proof {
            lemma_empty_multiset::<Seq<Field>>();
            assert(t0.to_multiset().add(Multiset::empty()) =~= t0.to_multiset());
        }
        loop
            invariant
                self.improved == old(self).improved,
                rows_of(self.join_table@).to_multiset().add(popped.to_multiset())
                    == t0.to_multiset(),
                forall|key: usize| #[trigger]
                    bucket(self.hash_tables@[0]@, key).to_multiset() == select(
                        popped,
                        key,
                        index as int,
                    ).to_multiset(),
                forall|b: int|
                    1 <= b < 8 ==> (#[trigger] self.hash_tables@[b])@ == Map::<
                        usize,
                        Vec<Vec<Field>>,
                    >::empty(),
                wide(rows_of(self.join_table@), index as int),
                forall|key: usize| wide(#[trigger] bucket(self.hash_tables@[0]@, key),
                    index as int),
            ensures
                self.join_table@.len() == 0,
            decreases self.join_table@.len(),
        {
            let ghost rows_before = rows_of(self.join_table@);
            let ghost table_before = self.hash_tables@[0]@;
            match self.join_table.pop() {
                None => {
                    break ;
                },
                Some(fields) => {
                    assert(rows_before =~= rows_of(self.join_table@).push(fields@));
                    assert(rows_before[rows_before.len() - 1].len() > index + 1);
                    let key: usize = fields[index].0;
                    let ghost row = fields@;
                    file_row(&mut self.hash_tables[0], key, fields);
                    proof {
                        lemma_push_multiset(rows_of(self.join_table@), row);
                        lemma_push_multiset(popped, row);
                        let rest = rows_of(self.join_table@).to_multiset();
                        assert(rest.add(popped.to_multiset().add(Multiset::singleton(row)))
                            =~= rest.add(Multiset::singleton(row)).add(popped.to_multiset()));
                        assert(popped.push(row).drop_last() =~= popped);
                        assert forall|other: usize| #[trigger]
                            bucket(self.hash_tables@[0]@, other).to_multiset() == select(
                                popped.push(row),
                                other,
                                index as int,
                            ).to_multiset() by {
                            assert(bucket(table_before, other).to_multiset() == select(
                                popped,
                                other,
                                index as int,
                            ).to_multiset());
                            if other == key {
                                lemma_push_multiset(bucket(table_before, key), row);
                                lemma_push_multiset(select(popped, key, index as int), row);
                            }
                        }
                        assert forall|other: usize|
                            wide(#[trigger] bucket(self.hash_tables@[0]@, other), index as int) by {
                            assert(wide(bucket(table_before, other), index as int));
                        }
                        assert(wide(rows_of(self.join_table@), index as int)) by {
                            assert forall|k: int|
                                0 <= k < rows_of(self.join_table@).len()
                                    implies (#[trigger] rows_of(
                                self.join_table@,
                            )[k]).len() > index + 1 by {
                                assert(rows_of(self.join_table@)[k] == rows_before[k]);
                            }
                        }
                        popped = popped.push(row);
                    }
                },
            }
        }
        self.field_ranges =
        [
            Field::from_offset(0).make_range(usize::MAX),
            Field::invalid()..Field::invalid(),
            Field::invalid()..Field::invalid(),
            Field::invalid()..Field::invalid(),
            Field::invalid()..Field::invalid(),
            Field::invalid()..Field::invalid(),
            Field::invalid()..Field::invalid(),
            Field::invalid()..Field::invalid(),
        ];
        proof {
            assert(rows_of(self.join_table@) =~= Seq::<Seq<Field>>::empty());
            assert(Multiset::<Seq<Field>>::empty().add(popped.to_multiset())
                =~= popped.to_multiset());
            let ranges = self.field_ranges@;
            let tables = self.hash_tables@;
            assert(ordered(ranges));
            assert forall|key: usize, b: int| owns(ranges, b, key) implies #[trigger] bucket(
                tables[b]@,
                key,
            ).to_multiset() == if key < usize::MAX {
                select(t0, key, index as int).to_multiset()
            } else {
                Multiset::empty()
            } by {
                if key < usize::MAX {
                    assert(b == 0);
                    lemma_select_perm(popped, t0, key, index as int);
                } else {
                    assert(b == 7);
                }
            }
        }
    }
}


/// The ends of the buckets do not come down.
pub proof fn lemma_bucket_end_step(lo: int, hi: int, k: int)
    requires
        0 <= lo <= hi,
        0 <= k,
    ensures
        bucket_end(lo, hi, k) <= bucket_end(lo, hi, k + 1),
        bucket_end(lo, hi, k + 1) == if bucket_end(lo, hi, k) + per_bucket(lo, hi) > usize::MAX {
            usize::MAX as int
        } else {
            bucket_end(lo, hi, k) + per_bucket(lo, hi)
        },
{
    let per = per_bucket(lo, hi);
    assert((k + 2) * per == (k + 1) * per + per) by (nonlinear_arith);
}

impl Impl {
    /// Cuts the range of the subjects into eight buckets and files a copy of every
    /// row of the table in the hash table of the bucket that its join column lies in.
    #[verifier::rlimit(30)]
    fn partitioned_hash(&mut self, index: usize, field_range: (Field, Field))
        requires
            field_range.0.0 <= field_range.1.0,
            field_range.0.valid(),
            wide(rows_of(old(self).join_table@), index as int),
            all_clear(old(self).hash_tables@),
        ensures
            final(self).improved == old(self).improved,
            final(self).join_table == old(self).join_table,
            built(
                final(self).hash_tables@,
                final(self).field_ranges@,
                rows_of(old(self).join_table@),
                index as int,
                bucket_end(field_range.0.0 as int, field_range.1.0 as int, 7),
            ),
    {
        let lo: usize = field_range.0.0;
        let hi: usize = field_range.1.0;
        let span: usize = hi - lo;
        // An eighth of `span + 1`, which may be one more than any offset.
        let eighth: usize = span / 8 + (span % 8 + 1) / 8;
        let per: usize = if eighth > MIN_BUCKET {
            eighth
        } else {
            MIN_BUCKET
        };
        assert(per == per_bucket(lo as int, hi as int));
        let first: usize = match lo.checked_add(per) {
            Some(end) => end,
            None => usize::MAX,
        };
        assert(first == bucket_end(lo as int, hi as int, 0)) by {
            assert((0 + 1) * per_bucket(lo as int, hi as int) == per_bucket(lo as int, hi as int))
                by (nonlinear_arith);
        }
        self.field_ranges[0] = Field::from_offset(0).make_range(first);
        let mut k: usize = 1;
        while k < 8
            invariant
                1 <= k <= 8,
                lo <= hi,
                per == per_bucket(lo as int, hi as int),
                self.improved == old(self).improved,
                self.join_table == old(self).join_table,
                self.hash_tables == old(self).hash_tables,
                self.field_ranges@.len() == 8,
                self.field_ranges@[0].start.0 == 0,
                forall|j: int|
                    0 <= j < k ==> (#[trigger] self.field_ranges@[j]).end.0 == bucket_end(
                        lo as int,
                        hi as int,
                        j,
                    ),
                forall|j: int|
                    1 <= j < k ==> (#[trigger] self.field_ranges@[j]).start == self.field_ranges@[j
                        - 1].end,
            decreases 8 - k,
        {
            proof {
                lemma_bucket_end_step(lo as int, hi as int, k - 1);
            }
            let next = self.field_ranges[k - 1].end.make_range(per);
            self.field_ranges[k] = next;
            k += 1;
        }
        proof {
            let ranges = self.field_ranges@;
            lemma_bucket_end_step(lo as int, hi as int, 0);
            lemma_bucket_end_step(lo as int, hi as int, 1);
            lemma_bucket_end_step(lo as int, hi as int, 2);
            lemma_bucket_end_step(lo as int, hi as int, 3);
            lemma_bucket_end_step(lo as int, hi as int, 4);
            lemma_bucket_end_step(lo as int, hi as int, 5);
            lemma_bucket_end_step(lo as int, hi as int, 6);
            assert(ranges[1].start == ranges[0].end);
            assert(ranges[2].start == ranges[1].end);
            assert(ranges[3].start == ranges[2].end);
            assert(ranges[4].start == ranges[3].end);
            assert(ranges[5].start == ranges[4].end);
            assert(ranges[6].start == ranges[5].end);
            assert(ranges[7].start == ranges[6].end);
            assert(ordered(ranges));
        }
        fill_tables(&self.field_ranges, &mut self.hash_tables, &self.join_table, index);
        proof {
            let ranges = self.field_ranges@;
            let tables = self.hash_tables@;
            let t = rows_of(self.join_table@);
            let limit = bucket_end(lo as int, hi as int, 7);
            assert forall|key: usize, b: int| owns(ranges, b, key) implies #[trigger] bucket(
                tables[b]@,
                key,
            ).to_multiset() == if key < limit {
                select(t, key, index as int).to_multiset()
            } else {
                Multiset::empty()
            } by {
                assert(filled(tables[b]@, ranges[b], t, index as int));
                if b < 7 {
                    assert(ranges[b + 1].start == ranges[b].end);
                }
                assert(within(ranges[b], key) == (key < limit));
            }
            assert forall|key: usize, b: int| 0 <= b < 8 implies wide(
                #[trigger] bucket(tables[b]@, key),
                index as int,
            ) by {
                assert(filled(tables[b]@, ranges[b], t, index as int));
            }
        }
    }

    /// Replaces the table by the rows that the pairs of `relation` find in the hash
    /// tables.
    fn scan_hashed(
        &mut self,
        index: usize,
        relation: Vec<(Field, Field)>,
        Ghost(t): Ghost<Seq<Seq<Field>>>,
        Ghost(limit): Ghost<int>,
    )
        requires
            built(old(self).hash_tables@, old(self).field_ranges@, t, index as int, limit),
        ensures
            final(self).improved == old(self).improved,
            rows_of(final(self).join_table@).to_multiset() == join_rows(
                t,
                probed(relation@, limit),
                index as int,
            ).to_multiset(),
    {
        let mut hashed: Vec<Vec<Field>> = Vec::new();
        core::mem::swap(&mut self.join_table, &mut hashed);
        drop_rows(hashed);
        proof {
            lemma_probe_join(
                self.hash_tables@,
                self.field_ranges@,
                t,
                relation@,
                index as int,
                limit,
            );
        }
        self.join_table = probe_all(&self.field_ranges, &self.hash_tables, index, relation);
    }
}

impl Impl {
    /// Hands the table over.
    pub fn into_table(self) -> (table: Vec<Vec<Field>>)
        ensures
            rows_of(table@) == self.rows(),
    {
        self.join_table
    }
}

impl JoinAlgo for Impl {
    closed spec fn rows(&self) -> Seq<Seq<Field>> {
        rows_of(self.join_table@)
    }

    open spec fn reach(&self, range: (Field, Field)) -> int {
        hash_reach(self.is_improved(), range)
    }

    /// The improved variant needs a range that is not empty and starts at a field.
    open spec fn accepts(&self, range: (Field, Field)) -> bool {
        self.is_improved() ==> range.0.0 <= range.1.0 && range.0.valid()
    }

    fn join(
        &mut self,
        settings: &Settings,
        index: usize,
        relation: Vec<(Field, Field)>,
        field_range: (Field, Field),
    ) {
        if index == 0 {
            seed(&mut self.join_table, settings.join_count, &relation);
            return ;
        }
        clear_tables(&mut self.hash_tables);
        let ghost t = rows_of(self.join_table@);
        if self.improved {
            self.partitioned_hash(index, field_range);
        } else {
            self.simple_hash(index);
        }
        self.scan_hashed(index, relation, Ghost(t), Ghost(hash_reach(self.improved, field_range)));
    }

    fn results(&self) -> (table: &Vec<Vec<Field>>) {
        &self.join_table
    }
}

} // verus!
