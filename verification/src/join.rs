//! What a join step is: the rows that it makes out of a table and a relation.

use crate::input::Field;
use crate::sums::{
    lemma_empty_multiset, lemma_push_multiset, lemma_sum_add, lemma_sum_concat, lemma_sum_perm,
    lemma_sum_push, lemma_sum_zero, sum,
};
use vstd::multiset::*;
use vstd::prelude::*;
use vstd::seq_lib::*;

verus! {

/// The rows of a table, as sequences.
pub open spec fn rows_of(table: Seq<Vec<Field>>) -> Seq<Seq<Field>> {
    table.map_values(|row: Vec<Field>| row@)
}

/// What the pair `p` makes of `row` in join step `i`: where the subject of `p` is
/// the row's column `i`, the row with the object of `p` in column `i + 1`.
pub open spec fn cell(row: Seq<Field>, p: (Field, Field), i: int) -> Multiset<Seq<Field>> {
    if p.0 == row[i] {
        Multiset::singleton(row.update(i + 1, p.1))
    } else {
        Multiset::empty()
    }
}

/// The rows that `row` is extended to: one for each pair of `r` whose subject is
/// the row's column `i`, in the order of `r`.
pub open spec fn extensions(row: Seq<Field>, r: Seq<(Field, Field)>, i: int) -> Seq<Seq<Field>>
    decreases r.len(),
{
    if r.len() == 0 {
        Seq::empty()
    } else {
        let before = extensions(row, r.drop_last(), i);
        if r.last().0 == row[i] {
            before.push(row.update(i + 1, r.last().1))
        } else {
            before
        }
    }
}

/// The rows that the pair `p` matches: each row of `t` whose column `i` is the
/// subject of `p`, with the object of `p` in column `i + 1`, in the order of `t`.
pub open spec fn matched(t: Seq<Seq<Field>>, p: (Field, Field), i: int) -> Seq<Seq<Field>>
    decreases t.len(),
{
    if t.len() == 0 {
        Seq::empty()
    } else {
        let before = matched(t.drop_last(), p, i);
        if p.0 == t.last()[i] {
            before.push(t.last().update(i + 1, p.1))
        } else {
            before
        }
    }
}

/// Join step `i` of the table `t` with the relation `r`: every row of `t`, extended
/// by every pair of `r` whose subject is the row's column `i`. Rows that no pair
/// extends are dropped.
///
/// The engines promise these rows as a multiset: in which order they stand in the
/// table is left open.
pub open spec fn join_rows(t: Seq<Seq<Field>>, r: Seq<(Field, Field)>, i: int) -> Seq<Seq<Field>>
    decreases t.len(),
{
    if t.len() == 0 {
        Seq::empty()
    } else {
        join_rows(t.drop_last(), r, i) + extensions(t.last(), r, i)
    }
}

/// What each pair makes of `row`.
pub open spec fn cell_of_row(row: Seq<Field>, i: int) -> spec_fn((Field, Field)) -> Multiset<
    Seq<Field>,
> {
    |p: (Field, Field)| cell(row, p, i)
}

/// The rows that a row is extended to, as a multiset.
pub open spec fn extensions_of(r: Seq<(Field, Field)>, i: int) -> spec_fn(Seq<Field>) -> Multiset<
    Seq<Field>,
> {
    |row: Seq<Field>| extensions(row, r, i).to_multiset()
}

/// The rows that a pair matches, as a multiset.
pub open spec fn matched_of(t: Seq<Seq<Field>>, i: int) -> spec_fn((Field, Field)) -> Multiset<
    Seq<Field>,
> {
    |p: (Field, Field)| matched(t, p, i).to_multiset()
}

/// The rows that a row is extended to, pair by pair.
pub proof fn lemma_extensions_sum(row: Seq<Field>, r: Seq<(Field, Field)>, i: int)
    ensures
        extensions(row, r, i).to_multiset() == sum(r, cell_of_row(row, i)),
    decreases r.len(),
{
    if r.len() == 0 {
        lemma_empty_multiset::<Seq<Field>>();
    } else {
        let d = r.drop_last();
        lemma_extensions_sum(row, d, i);
        if r.last().0 == row[i] {
            lemma_push_multiset(extensions(row, d, i), row.update(i + 1, r.last().1));
        } else {
            assert(sum(d, cell_of_row(row, i)).add(Multiset::empty()) =~= sum(
                d,
                cell_of_row(row, i),
            ));
        }
    }
}

/// The rows of a join step, row by row of the table.
pub proof fn lemma_join_by_rows(t: Seq<Seq<Field>>, r: Seq<(Field, Field)>, i: int)
    ensures
        join_rows(t, r, i).to_multiset() == sum(t, extensions_of(r, i)),
    decreases t.len(),
{
    if t.len() == 0 {
        lemma_empty_multiset::<Seq<Field>>();
    } else {
        lemma_join_by_rows(t.drop_last(), r, i);
        lemma_multiset_commutative(join_rows(t.drop_last(), r, i), extensions(t.last(), r, i));
    }
}

/// The rows of a join step, pair by pair of the relation.
pub proof fn lemma_join_by_pairs(t: Seq<Seq<Field>>, r: Seq<(Field, Field)>, i: int)
    ensures
        join_rows(t, r, i).to_multiset() == sum(r, matched_of(t, i)),
    decreases t.len(),
{
    if t.len() == 0 {
        lemma_empty_multiset::<Seq<Field>>();
        assert forall|k: int| 0 <= k < r.len() implies matched_of(t, i)(#[trigger] r[k])
            == Multiset::<Seq<Field>>::empty() by {}
        lemma_sum_zero(r, matched_of(t, i));
    } else {
        let d = t.drop_last();
        let row = t.last();
        lemma_join_by_pairs(d, r, i);
        lemma_multiset_commutative(join_rows(d, r, i), extensions(row, r, i));
        lemma_extensions_sum(row, r, i);
        assert forall|k: int| 0 <= k < r.len() implies matched_of(t, i)(#[trigger] r[k])
            == matched_of(d, i)(r[k]).add(cell_of_row(row, i)(r[k])) by {
            let p = r[k];
            if p.0 == row[i] {
                lemma_push_multiset(matched(d, p, i), row.update(i + 1, p.1));
            } else {
                assert(matched(d, p, i).to_multiset().add(Multiset::empty()) =~= matched(
                    d,
                    p,
                    i,
                ).to_multiset());
            }
        }
        lemma_sum_add(r, matched_of(d, i), cell_of_row(row, i), matched_of(t, i));
    }
}

/// The rows of a join step do not depend on the order of the table.
pub proof fn lemma_join_perm_table(
    t1: Seq<Seq<Field>>,
    t2: Seq<Seq<Field>>,
    r: Seq<(Field, Field)>,
    i: int,
)
    requires
        t1.to_multiset() == t2.to_multiset(),
    ensures
        join_rows(t1, r, i).to_multiset() == join_rows(t2, r, i).to_multiset(),
{
    lemma_join_by_rows(t1, r, i);
    lemma_join_by_rows(t2, r, i);
    lemma_sum_perm(t1, t2, extensions_of(r, i));
}

/// The rows of a join step do not depend on the order of the relation.
pub proof fn lemma_join_perm_relation(
    t: Seq<Seq<Field>>,
    r1: Seq<(Field, Field)>,
    r2: Seq<(Field, Field)>,
    i: int,
)
    requires
        r1.to_multiset() == r2.to_multiset(),
    ensures
        join_rows(t, r1, i).to_multiset() == join_rows(t, r2, i).to_multiset(),
{
    lemma_join_by_pairs(t, r1, i);
    lemma_join_by_pairs(t, r2, i);
    lemma_sum_perm(r1, r2, matched_of(t, i));
}

/// The rows of a join step of two tables put together are those of the one and
/// those of the other.
pub proof fn lemma_join_concat(
    t1: Seq<Seq<Field>>,
    t2: Seq<Seq<Field>>,
    r: Seq<(Field, Field)>,
    i: int,
)
    ensures
        join_rows(t1 + t2, r, i).to_multiset() == join_rows(t1, r, i).to_multiset().add(
            join_rows(t2, r, i).to_multiset(),
        ),
{
    lemma_join_by_rows(t1 + t2, r, i);
    lemma_join_by_rows(t1, r, i);
    lemma_join_by_rows(t2, r, i);
    lemma_sum_concat(t1, t2, extensions_of(r, i));
}


/// What the engines are told about the whole join.
pub struct Settings {
    /// The number of relations that are joined.
    pub join_count: usize,
}

/// Every row is long enough to hold column `i + 1`.
pub open spec fn wide(t: Seq<Seq<Field>>, i: int) -> bool {
    forall|k: int| 0 <= k < t.len() ==> (#[trigger] t[k]).len() > i + 1
}

/// The row that the pair `p` starts: its subject, its object, and the sentinel in
/// all further columns up to column `n`.
pub open spec fn seed_row(p: (Field, Field), n: int) -> Seq<Field> {
    Seq::new(
        (n + 1) as nat,
        |k: int|
            if k == 0 {
                p.0
            } else if k == 1 {
                p.1
            } else {
                Field::invalid()
            },
    )
}

/// The rows that the first relation starts the table with.
pub open spec fn seed_rows(r: Seq<(Field, Field)>, n: int) -> Seq<Seq<Field>> {
    r.map_values(|p: (Field, Field)| seed_row(p, n))
}

/// The pairs of `r` whose subject lies below `reach`, in the order of `r`.
pub open spec fn probed(r: Seq<(Field, Field)>, reach: int) -> Seq<(Field, Field)>
    decreases r.len(),
{
    if r.len() == 0 {
        Seq::empty()
    } else {
        let before = probed(r.drop_last(), reach);
        if r.last().0.0 < reach {
            before.push(r.last())
        } else {
            before
        }
    }
}

/// `f`, for the pairs whose subject lies below `reach`.
pub open spec fn below(reach: int, f: spec_fn((Field, Field)) -> Multiset<Seq<Field>>) -> spec_fn(
    (Field, Field),
) -> Multiset<Seq<Field>> {
    |p: (Field, Field)|
        if p.0.0 < reach {
            f(p)
        } else {
            Multiset::empty()
        }
}

/// A sum over the pairs below a reach is a sum over all pairs of what the
/// pairs below the reach give.
pub proof fn lemma_sum_probed(
    r: Seq<(Field, Field)>,
    reach: int,
    f: spec_fn((Field, Field)) -> Multiset<Seq<Field>>,
)
    ensures
        sum(probed(r, reach), f) == sum(r, below(reach, f)),
    decreases r.len(),
{
    if r.len() > 0 {
        lemma_sum_probed(r.drop_last(), reach, f);
        if r.last().0.0 < reach {
            lemma_sum_push(probed(r.drop_last(), reach), r.last(), f);
        } else {
            assert(sum(r.drop_last(), below(reach, f)).add(Multiset::empty()) =~= sum(
                r.drop_last(),
                below(reach, f),
            ));
        }
    }
}

/// A reach that no offset attains leaves every pair in.
pub proof fn lemma_probed_all(r: Seq<(Field, Field)>, reach: int)
    requires
        reach > usize::MAX,
    ensures
        probed(r, reach) == r,
    decreases r.len(),
{
    if r.len() > 0 {
        lemma_probed_all(r.drop_last(), reach);
        assert(r.drop_last().push(r.last()) =~= r);
    }
}

/// Starts the table: one row of `join_count + 1` columns for each pair of the
/// first relation.
pub fn seed(table: &mut Vec<Vec<Field>>, join_count: usize, relation: &Vec<(Field, Field)>)
    requires
        1 <= join_count < usize::MAX,
    ensures
        rows_of(final(table)@) == rows_of(old(table)@) + seed_rows(relation@, join_count as int),
{
    let n: usize = relation.len();
    let mut k: usize = 0;
    while k < n
        invariant
            k <= n,
            n == relation@.len(),
            1 <= join_count < usize::MAX,
            rows_of(table@) == rows_of(old(table)@) + seed_rows(relation@, join_count as int).take(
                k as int,
            ),
        decreases n - k,
    {
        let (subj, obj) = relation[k];
        let mut fields: Vec<Field> = Vec::new();
        fields.push(subj);
        fields.push(obj);
        let mut c: usize = 1;
        while c < join_count
            invariant
                1 <= c <= join_count < usize::MAX,
                fields@.len() == c + 1,
                fields@[0] == subj,
                fields@[1] == obj,
                forall|j: int| 2 <= j <= c ==> fields@[j] == Field::invalid(),
            decreases join_count - c,
        {
            fields.push(Field::invalid());
            c += 1;
        }
        assert(fields@ =~= seed_row(relation@[k as int], join_count as int));
        let ghost before = rows_of(table@);
        table.push(fields);
        proof {
            let seeds = seed_rows(relation@, join_count as int);
            assert(rows_of(table@) =~= before.push(seeds[k as int]));
            assert(seeds.take(k + 1) =~= seeds.take(k as int).push(seeds[k as int]));
        }
        k += 1;
    }
    assert(seed_rows(relation@, join_count as int).take(n as int) =~= seed_rows(
        relation@,
        join_count as int,
    ));
}


/// A join engine: it holds the table and joins one relation after the other to it.
pub trait JoinAlgo {
    /// The rows of the table.
    spec fn rows(&self) -> Seq<Seq<Field>>;

    /// The offset from which on a subject of the relation finds no row of the
    /// table, given the range of the relation's subjects.
    spec fn reach(&self, range: (Field, Field)) -> int;

    /// What the engine needs the range of the relation's subjects to be.
    spec fn accepts(&self, range: (Field, Field)) -> bool;

    /// Join step `index` with `relation`.
    ///
    /// Step 0 starts the table with one row for each pair. Every later step
    /// replaces the table by the rows of `join_rows`, in some order.
    fn join(
        &mut self,
        settings: &Settings,
        index: usize,
        relation: Vec<(Field, Field)>,
        field_range: (Field, Field),
    )
        requires
            index == 0 ==> 1 <= settings.join_count < usize::MAX,
            index > 0 ==> wide(old(self).rows(), index as int) && old(self).accepts(field_range),
        ensures
            index == 0 ==> final(self).rows() == old(self).rows() + seed_rows(
                relation@,
                settings.join_count as int,
            ),
            index > 0 ==> final(self).rows().to_multiset() == join_rows(
                old(self).rows(),
                probed(relation@, old(self).reach(field_range)),
                index as int,
            ).to_multiset(),
            forall|range: (Field, Field)|
                final(self).reach(range) == old(self).reach(range) && final(self).accepts(range)
                    == old(self).accepts(range),
    ;

    /// The table.
    fn results(&self) -> (table: &Vec<Vec<Field>>)
        ensures
            rows_of(table@) == self.rows(),
    ;
}

} // verus!
