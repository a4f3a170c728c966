//! The whole join: one engine, run over the relations of a pipeline in order.

use crate::args::Args;
use crate::hash::hash_reach;
use crate::input::{
    lines_from, lossy_text, rest, scan_field, scan_line, Field, Input, ParseError, Str,
};
use crate::pipeline::{
    held, key_of, lemma_named_len, lemma_stage_fields, missing, named, range_of, stage, staged,
    Pipeline, PipelineError,
};
use crate::relation::{
    build_universe, catalogued, fails_at, is_parse, listed, parses, within, Universe,
};
use crate::join::{
    below, extensions, join_rows, lemma_join_by_pairs, lemma_join_perm_table, lemma_sum_probed,
    matched, matched_of, probed, rows_of, seed_rows, wide, JoinAlgo, Settings,
};
use crate::sums::{lemma_empty_multiset, lemma_sum_pointwise};
use vstd::multiset::*;
use vstd::prelude::*;
use vstd::seq_lib::*;
use vstd::string::*;

verus! {

/// The rows of the table after join step `upto`, in the order in which
/// `join_rows` makes them.
///
/// Step 0 starts the table with the rows of relation 0. Step `k` joins relation
/// `k` to it, with the pairs whose subject lies below `reaches[k]`.
pub open spec fn chain(rels: Seq<Seq<(Field, Field)>>, reaches: Seq<int>, upto: int) -> Seq<
    Seq<Field>,
>
    decreases upto,
{
    if upto <= 0 {
        seed_rows(rels[0], rels.len() as int)
    } else {
        join_rows(chain(rels, reaches, upto - 1), probed(rels[upto], reaches[upto]), upto)
    }
}

/// The reach of the engine for each range.
pub open spec fn reaches_of<A: JoinAlgo>(engine: A, ranges: Seq<(Field, Field)>) -> Seq<int> {
    ranges.map_values(|range: (Field, Field)| engine.reach(range))
}

/// The relations, as sequences.
pub open spec fn relations_of(relations: Seq<Vec<(Field, Field)>>) -> Seq<Seq<(Field, Field)>> {
    relations.map_values(|r: Vec<(Field, Field)>| r@)
}

/// `rows` are the rows of the whole join, in some order.
pub open spec fn is_result(rows: Seq<Seq<Field>>, rels: Seq<Seq<(Field, Field)>>,
    reaches: Seq<int>) -> bool {
    rows.to_multiset() == chain(rels, reaches, rels.len() - 1).to_multiset()
}

/// A row of `extensions` is the row extended by a pair with its subject.
pub proof fn lemma_extensions_member(row: Seq<Field>, r: Seq<(Field, Field)>, i: int, x: Seq<Field>)
    requires
        extensions(row, r, i).contains(x),
    ensures
        exists|j: int| 0 <= j < r.len() && (#[trigger] r[j]).0 == row[i] && x
            == row.update(i + 1, r[j].1),
    decreases r.len(),
{
    if r.len() > 0 {
        let d = r.drop_last();
        let before = extensions(row, d, i);
        let k = choose|k: int| 0 <= k < extensions(row, r, i).len()
            && extensions(row, r, i)[k] == x;
        if r.last().0 == row[i] && k == before.len() {
            assert(r[r.len() - 1] == r.last());
        } else {
            assert(before[k] == x);
            lemma_extensions_member(row, d, i, x);
            let j = choose|j: int| 0 <= j < d.len() && (#[trigger] d[j]).0 == row[i] && x
                == row.update(i + 1, d[j].1);
            assert(r[j] == d[j]);
        }
    }
}

/// A row of `join_rows` is a row of the table extended by a pair with its subject.
pub proof fn lemma_join_member(t: Seq<Seq<Field>>, r: Seq<(Field, Field)>, i: int, x: Seq<Field>)
    requires
        join_rows(t, r, i).contains(x),
    ensures
        exists|k: int, j: int|
            0 <= k < t.len() && 0 <= j < r.len() && (#[trigger] r[j]).0 == (#[trigger] t[k])[i] && x
                == t[k].update(i + 1, r[j].1),
    decreases t.len(),
{
    if t.len() > 0 {
        let d = t.drop_last();
        let all = join_rows(t, r, i);
        let q = choose|q: int| 0 <= q < all.len() && all[q] == x;
        if q < join_rows(d, r, i).len() {
            assert(join_rows(d, r, i)[q] == x);
            lemma_join_member(d, r, i, x);
            let (k, j) = choose|k: int, j: int|
                0 <= k < d.len() && 0 <= j < r.len() && (#[trigger] r[j]).0 == (#[trigger] d[k])[i]
                    && x == d[k].update(i + 1, r[j].1);
            assert(t[k] == d[k]);
        } else {
            assert(extensions(t.last(), r, i)[q - join_rows(d, r, i).len()] == x);
            lemma_extensions_member(t.last(), r, i, x);
            let j = choose|j: int| 0 <= j < r.len() && (#[trigger] r[j]).0 == t.last()[i] && x
                == t.last().update(i + 1, r[j].1);
            assert(t[t.len() - 1] == t.last());
        }
    }
}

/// A pair of `probed` is a pair of the relation.
pub proof fn lemma_probed_member(r: Seq<(Field, Field)>, reach: int, j: int)
    requires
        0 <= j < probed(r, reach).len(),
    ensures
        exists|q: int| 0 <= q < r.len() && #[trigger] r[q] == probed(r, reach)[j],
    decreases r.len(),
{
    if r.len() > 0 {
        let d = r.drop_last();
        if r.last().0.0 < reach && j == probed(d, reach).len() {
            assert(r[r.len() - 1] == probed(r, reach)[j]);
        } else {
            lemma_probed_member(d, reach, j);
            let q = choose|q: int| 0 <= q < d.len() && #[trigger] d[q] == probed(d, reach)[j];
            assert(r[q] == d[q]);
        }
    }
}

/// Columns `k` and `k + 1` of `row` are the subject and the object of one pair of
/// relation `k`.
pub open spec fn linked(rels: Seq<Seq<(Field, Field)>>, row: Seq<Field>, k: int) -> bool {
    exists|j: int| 0 <= j < rels[k].len() && #[trigger] rels[k][j] == (row[k], row[k + 1])
}

/// The row invariant: every row of the join has one column more than there are
/// relations, and for every step `k` that was made, the row's columns `k` and
/// `k + 1` are the subject and the object of one pair of relation `k`. So column 0
/// is the subject of a pair of relation 0.
pub proof fn lemma_row_invariant(
    rels: Seq<Seq<(Field, Field)>>,
    reaches: Seq<int>,
    upto: int,
    row: Seq<Field>,
)
    requires
        0 <= upto < rels.len(),
        chain(rels, reaches, upto).contains(row),
    ensures
        row.len() == rels.len() + 1,
        forall|k: int| 0 <= k <= upto ==> #[trigger] linked(rels, row, k),
    decreases upto,
{
    if upto == 0 {
        let seeds = seed_rows(rels[0], rels.len() as int);
        let j = choose|j: int| 0 <= j < seeds.len() && seeds[j] == row;
        assert(rels[0][j] == (row[0], row[1]));
    } else {
        let prev = chain(rels, reaches, upto - 1);
        let r = probed(rels[upto], reaches[upto]);
        lemma_join_member(prev, r, upto, row);
        let (k, j) = choose|k: int, j: int|
            0 <= k < prev.len() && 0 <= j < r.len() && (#[trigger] r[j]).0
                == (#[trigger] prev[k])[upto]
                && row == prev[k].update(upto + 1, r[j].1);
        assert(prev.contains(prev[k]));
        lemma_row_invariant(rels, reaches, upto - 1, prev[k]);
        lemma_probed_member(rels[upto], reaches[upto], j);
        let q = choose|q: int| 0 <= q < rels[upto].len() && #[trigger] rels[upto][q] == r[j];
        assert forall|c: int| 0 <= c <= upto implies #[trigger] linked(rels, row, c) by {
            if c == upto {
                assert(rels[upto][q] == (row[c], row[c + 1]));
            } else {
                assert(linked(rels, prev[k], c));
                let w = choose|w: int|
                    0 <= w < rels[c].len() && #[trigger] rels[c][w] == (prev[k][c], prev[k][c + 1]);
                assert(rels[c][w] == (row[c], row[c + 1]));
            }
        }
    }
}

/// Rows that are the rows of the join in some order obey the row invariant.
pub proof fn lemma_result_rows(
    rows: Seq<Seq<Field>>,
    rels: Seq<Seq<(Field, Field)>>,
    reaches: Seq<int>,
    at: int,
)
    requires
        rels.len() >= 1,
        is_result(rows, rels, reaches),
        0 <= at < rows.len(),
    ensures
        rows[at].len() == rels.len() + 1,
        forall|k: int| 0 <= k < rels.len() ==> #[trigger] linked(rels, rows[at], k),
{
    broadcast use group_to_multiset_ensures;

    assert(rows.to_multiset().count(rows[at]) > 0);
    lemma_row_invariant(rels, reaches, rels.len() - 1, rows[at]);
}

/// Running the join again on the same relations gives the same rows, as a
/// multiset.
pub proof fn lemma_rerun(
    first: Seq<Seq<Field>>,
    second: Seq<Seq<Field>>,
    rels: Seq<Seq<(Field, Field)>>,
    reaches: Seq<int>,
)
    requires
        is_result(first, rels, reaches),
        is_result(second, rels, reaches),
    ensures
        first.to_multiset() == second.to_multiset(),
{
}

/// Two engines give the same rows where every pair that only one of them probes
/// with matches no row.
pub proof fn lemma_engines_agree(
    rels: Seq<Seq<(Field, Field)>>,
    reaches1: Seq<int>,
    reaches2: Seq<int>,
    upto: int,
)
    requires
        0 <= upto < rels.len(),
        forall|k: int, j: int|
            1 <= k <= upto && 0 <= j < rels[k].len() && ((#[trigger] rels[k][j]).0.0 < reaches1[k])
                != (rels[k][j].0.0 < reaches2[k]) ==> matched(
                chain(rels, reaches1, k - 1),
                rels[k][j],
                k,
            ).len() == 0,
    ensures
        chain(rels, reaches1, upto).to_multiset() == chain(rels, reaches2, upto).to_multiset(),
    decreases upto,
{
    if upto > 0 {
        lemma_engines_agree(rels, reaches1, reaches2, upto - 1);
        let t1 = chain(rels, reaches1, upto - 1);
        let t2 = chain(rels, reaches2, upto - 1);
        let r = rels[upto];
        lemma_join_perm_table(t2, t1, probed(r, reaches2[upto]), upto);
        lemma_join_by_pairs(t1, probed(r, reaches1[upto]), upto);
        lemma_join_by_pairs(t1, probed(r, reaches2[upto]), upto);
        lemma_sum_probed(r, reaches1[upto], matched_of(t1, upto));
        lemma_sum_probed(r, reaches2[upto], matched_of(t1, upto));
        assert forall|j: int| 0 <= j < r.len() implies below(reaches1[upto], matched_of(t1, upto))(
            #[trigger] r[j],
        ) == below(reaches2[upto], matched_of(t1, upto))(r[j]) by {
            if (r[j].0.0 < reaches1[upto]) != (r[j].0.0 < reaches2[upto]) {
                assert(matched(t1, r[j], upto) =~= Seq::<Seq<Field>>::empty());
                lemma_empty_multiset::<Seq<Field>>();
            }
        }
        lemma_sum_pointwise(
            r,
            below(reaches1[upto], matched_of(t1, upto)),
            below(reaches2[upto], matched_of(t1, upto)),
        );
    }
}


/// Runs the engine over the relations in order: step 0 with the first, step 1
/// with the second, and so on. Returns the number of rows in the table after
/// each step.
pub fn run<A: JoinAlgo>(
    engine: &mut A,
    relations: Vec<Vec<(Field, Field)>>,
    ranges: &Vec<(Field, Field)>,
) -> (counts: Vec<usize>)
    requires
        old(engine).rows().len() == 0,
        1 <= relations@.len() < usize::MAX,
        ranges@.len() == relations@.len(),
        forall|k: int| 1 <= k < ranges@.len() ==> old(engine).accepts(#[trigger] ranges@[k]),
    ensures
        is_result(
            final(engine).rows(),
            relations_of(relations@),
            reaches_of(*old(engine), ranges@),
        ),
        counts@.len() == relations@.len(),
        forall|k: int|
            0 <= k < counts@.len() ==> #[trigger] counts@[k] == chain(
                relations_of(relations@),
                reaches_of(*old(engine), ranges@),
                k,
            ).len(),
{
    let ghost rels = relations_of(relations@);
    let ghost reaches = reaches_of(*engine, ranges@);
    let ghost start = *engine;
    let n: usize = relations.len();
    let settings = Settings { join_count: n };
    let mut relations = relations;
    let mut counts: Vec<usize> = Vec::new();
    let mut k: usize = 0;
    while k < n
        invariant
            k <= n,
            1 <= n < usize::MAX,
            n == rels.len(),
            n == relations@.len(),
            n == ranges@.len(),
            settings.join_count == n,
            reaches == reaches_of(start, ranges@),
            forall|q: int| k <= q < n ==> (#[trigger] relations@[q])@ == rels[q],
            forall|range: (Field, Field)|
                engine.reach(range) == start.reach(range) && engine.accepts(range) == start.accepts(
                    range,
                ),
            forall|q: int| 1 <= q < n ==> start.accepts(#[trigger] ranges@[q]),
            k == 0 ==> engine.rows().len() == 0,
            k > 0 ==> engine.rows().to_multiset() == chain(rels, reaches, k - 1).to_multiset(),
            counts@.len() == k,
            forall|q: int| 0 <= q < k ==> #[trigger] counts@[q] == chain(rels, reaches, q).len(),
        decreases n - k,
    {
        let mut relation: Vec<(Field, Field)> = Vec::new();
        core::mem::swap(&mut relations[k], &mut relation);
        let ghost before = engine.rows();
        proof {
            broadcast use group_to_multiset_ensures;

            if k > 0 {
                let prev = chain(rels, reaches, k - 1);
                assert forall|q: int| 0 <= q < before.len() implies (#[trigger] before[q]).len() > k
                    + 1 by {
                    assert(before.to_multiset().count(before[q]) > 0);
                    lemma_row_invariant(rels, reaches, k - 1, before[q]);
                }
                lemma_join_perm_table(before, prev, probed(rels[k as int], reaches[k as int]),
                    k as int);
            } else {
                assert(before =~= Seq::<Seq<Field>>::empty());
                assert(before + seed_rows(rels[0], n as int) =~= seed_rows(rels[0], n as int));
            }
        }
        engine.join(&settings, k, relation, ranges[k]);
        proof {
            broadcast use group_to_multiset_ensures;

            assert(engine.rows().len() == engine.rows().to_multiset().len());
            assert(chain(rels, reaches, k as int).len() == chain(
                rels,
                reaches,
                k as int,
            ).to_multiset().len());
        }
        counts.push(engine.results().len());
        k += 1;
    }
    counts
}


/// Why a join came to nothing.
pub enum JoinError {
    /// A line of the input does not hold three fields.
    Parse(ParseError),
    /// Neither the hash join nor the sort-merge join was asked for.
    NoMode,
    /// Both the hash join and the sort-merge join were asked for.
    BothModes,
    /// No pipeline could be built.
    Pipeline(PipelineError),
    /// The improved hash join was asked for, and a relation behind the first has
    /// no subject left, so that there is no range to cut into buckets.
    InvalidRange,
}

impl JoinError {
    /// What `message` says.
    pub open spec fn text(self) -> Seq<char> {
        match self {
            JoinError::Parse(ParseError::UnterminatedQuote) => "missing closing DQUOTE"@,
            JoinError::Parse(ParseError::MissingTerminator) => "missing terminating TAB or SPACE"@,
            JoinError::NoMode => "Neither --hash nor --sort specified."@,
            JoinError::BothModes => "Modes --hash and --sort are mutually exclusive."@,
            JoinError::Pipeline(e) => e.text(),
            JoinError::InvalidRange => "invalid range"@,
        }
    }

    /// The error in words.
    pub fn message(&self) -> (text: String)
        ensures
            text@ == self.text(),
    {
        match self {
            JoinError::Parse(ParseError::UnterminatedQuote) => String::from_str(
                "missing closing DQUOTE",
            ),
            JoinError::Parse(ParseError::MissingTerminator) => String::from_str(
                "missing terminating TAB or SPACE",
            ),
            JoinError::NoMode => String::from_str("Neither --hash nor --sort specified."),
            JoinError::BothModes => String::from_str(
                "Modes --hash and --sort are mutually exclusive.",
            ),
            JoinError::Pipeline(e) => e.message(),
            JoinError::InvalidRange => String::from_str("invalid range"),
        }
    }
}

/// The result of a join.
pub struct Joined {
    /// The rows, in no particular order.
    pub table: Vec<Vec<Field>>,
    /// The number of rows in the table after each step.
    pub counts: Vec<usize>,
}

/// The reach of the engine that `hash` and `improved` select, for each range.
pub open spec fn mode_reaches(hash: bool, improved: bool, ranges: Seq<(Field, Field)>) -> Seq<int> {
    ranges.map_values(
        |range: (Field, Field)|
            if hash {
                hash_reach(improved, range)
            } else {
                usize::MAX + 1
            },
    )
}

/// Every range behind the first is one that the improved hash join can cut into
/// buckets: it is not empty and starts at a field.
pub open spec fn cuttable(ranges: Seq<(Field, Field)>) -> bool {
    forall|k: int| 1 <= k < ranges.len() ==> (#[trigger] ranges[k]).0.0 <= ranges[k].1.0
        && ranges[k].0.valid()
}

/// Tells whether every range behind the first can be cut into buckets.
pub fn check_ranges(ranges: &Vec<(Field, Field)>) -> (fit: bool)
    ensures
        fit == cuttable(ranges@),
{
    let n: usize = ranges.len();
    let mut k: usize = 1;
    while k < n
        invariant
            1 <= k,
            n == ranges@.len(),
            forall|q: int| 1 <= q < k && q < n
                ==> (#[trigger] ranges@[q]).0.0 <= ranges@[q].1.0 && ranges@[q].0.valid(),
        decreases n - k,
    {
        if !(ranges[k].0.0 <= ranges[k].1.0 && ranges[k].0.is_valid()) {
            return false;
        }
        k += 1;
    }
    true
}

/// The relations of the pipeline that is made of `rels`.
pub open spec fn stages(rels: Seq<Seq<(Str<'_>, Str<'_>)>>) -> Seq<Seq<(Field, Field)>> {
    Seq::new(rels.len(), |k: int| stage(rels, k))
}

/// The ranges of the pipeline that is made of `rels`.
pub open spec fn stage_ranges(rels: Seq<Seq<(Str<'_>, Str<'_>)>>) -> Seq<(Field, Field)> {
    Seq::new(
        rels.len(),
        |k: int|
            if k == 0 {
                (Field::invalid(), Field::invalid())
            } else {
                range_of(stage(rels, k))
            },
    )
}

/// What `join_universe` returns for a request and a catalogue.
///
/// The mode is looked at first, then the names, and then the ranges.
pub open spec fn join_outcome(args: Args, universe: Universe<'_>, done: Result<Joined,
    JoinError>) -> bool {
    let rels = named(universe, args.relations@);
    if !args.hash_join && !args.sort_merge_join {
        done matches Err(JoinError::NoMode)
    } else if args.hash_join && args.sort_merge_join {
        done matches Err(JoinError::BothModes)
    } else if missing(universe, args.relations@).len() > 0 {
        done matches Err(JoinError::Pipeline(PipelineError::UnknownRelations(names))) && names@
            == missing(universe, args.relations@)
    } else if args.relations@.len() < 2 {
        done matches Err(JoinError::Pipeline(PipelineError::NoJoin))
    } else if args.hash_join && args.improved && !cuttable(stage_ranges(rels)) {
        done matches Err(JoinError::InvalidRange)
    } else {
        done matches Ok(joined) && is_result(
            rows_of(joined.table@),
            stages(rels),
            mode_reaches(args.hash_join, args.improved, stage_ranges(rels)),
        ) && joined.counts@.len() == rels.len() && forall|k: int|
            0 <= k < rels.len() ==> #[trigger] joined.counts@[k] == chain(
                stages(rels),
                mode_reaches(args.hash_join, args.improved, stage_ranges(rels)),
                k,
            ).len()
    }
}

/// At every column of every row a field of the buffer starts.
pub open spec fn all_fields(input: Input<'_>, rows: Seq<Seq<Field>>) -> bool {
    forall|r: int, c: int|
        0 <= r < rows.len() && 0 <= c < rows[r].len() ==> input.has_field(#[trigger] rows[r][c])
}

/// At every column of every row of the whole join of a pipeline a field of the
/// buffer starts.
pub proof fn lemma_result_fields<'a>(
    input: Input<'a>,
    rels: Seq<Seq<(Str<'a>, Str<'a>)>>,
    reaches: Seq<int>,
    rows: Seq<Seq<Field>>,
)
    requires
        rels.len() >= 1,
        forall|q: int| 0 <= q < rels.len() ==> held(input, #[trigger] rels[q]),
        is_result(rows, stages(rels), reaches),
    ensures
        all_fields(input, rows),
{
    let st = stages(rels);
    let n = rels.len() as int;
    assert forall|r: int, c: int| 0 <= r < rows.len() && 0 <= c < rows[r].len()
        implies input.has_field(
        #[trigger] rows[r][c],
    ) by {
        lemma_result_rows(rows, st, reaches, r);
        let k = if c < n {
            c
        } else {
            n - 1
        };
        assert(linked(st, rows[r], k));
        let j = choose|j: int|
            0 <= j < st[k].len() && #[trigger] st[k][j] == (rows[r][k], rows[r][k + 1]);
        lemma_stage_fields(input, rels, k, j);
    }
}

/// Joins the relations that the request names, as the catalogue holds them, with
/// the engine that the request selects.
pub fn join_universe<'a>(args: &Args, input: &Input<'a>, universe: &Universe<'a>) -> (done: Result<
    Joined,
    JoinError,
>)
    requires
        within(*universe, *input),
        args.relations@.len() < usize::MAX,
    ensures
        join_outcome(*args, *universe, done),
        done matches Ok(joined) ==> all_fields(*input, rows_of(joined.table@)),
{
    if !args.hash_join && !args.sort_merge_join {
        return Err(JoinError::NoMode);
    }
    if args.hash_join && args.sort_merge_join {
        return Err(JoinError::BothModes);
    }
    let pipeline = match Pipeline::build(input, universe, &args.relations) {
        Ok(pipeline) => pipeline,
        Err(e) => {
            return Err(JoinError::Pipeline(e));
        },
    };
    let ghost rels = named(*universe, args.relations@);
    proof {
        lemma_named_len(*universe, args.relations@);
        assert(relations_of(pipeline.relations@) =~= stages(rels)) by {
            assert forall|k: int| 0 <= k < rels.len() implies relations_of(
                pipeline.relations@,
            )[k] == stages(rels)[k] by {
                assert(staged((pipeline.relations@[k], pipeline.ranges@[k]), rels, k));
            }
        }
        assert(pipeline.ranges@ =~= stage_ranges(rels)) by {
            assert forall|k: int| 0 <= k < rels.len() implies pipeline.ranges@[k] == stage_ranges(
                rels,
            )[k] by {
                assert(staged((pipeline.relations@[k], pipeline.ranges@[k]), rels, k));
            }
        }
    }
    proof {
        lemma_named_held(*input, *universe, args.relations@);
    }
    let Pipeline { relations, ranges } = pipeline;
    if args.hash_join {
        if args.improved && !check_ranges(&ranges) {
            return Err(JoinError::InvalidRange);
        }
        let mut engine = crate::hash::Impl::new(args.improved);
        proof {
            assert(reaches_of(engine, ranges@) =~= mode_reaches(true, args.improved, ranges@));
        }
        let counts = run(&mut engine, relations, &ranges);
        let table = engine.into_table();
        proof {
            lemma_result_fields(
                *input,
                rels,
                mode_reaches(true, args.improved, ranges@),
                rows_of(table@),
            );
        }
        Ok(Joined { table, counts })
    } else {
        let mut engine = crate::sort_merge::Impl::new(args.improved);
        proof {
            assert(reaches_of(engine, ranges@) =~= mode_reaches(false, args.improved, ranges@));
        }
        let counts = run(&mut engine, relations, &ranges);
        let table = engine.into_table();
        proof {
            lemma_result_fields(
                *input,
                rels,
                mode_reaches(false, args.improved, ranges@),
                rows_of(table@),
            );
        }
        Ok(Joined { table, counts })
    }
}

/// The buffer holds every subject and object of the relations that are named.
pub proof fn lemma_named_held<'a>(input: Input<'a>, universe: Universe<'a>, names: Seq<String>)
    requires
        within(universe, input),
    ensures
        forall|q: int|
            0 <= q < named(universe, names).len() ==> held(
                input,
                #[trigger] named(universe, names)[q],
            ),
    decreases names.len(),
{
    if names.len() > 0 {
        lemma_named_held(input, universe, names.drop_last());
        let before = named(universe, names.drop_last());
        let key = key_of(names.last());
        assert forall|q: int| 0 <= q < named(universe, names).len() implies held(
            input,
            #[trigger] named(universe, names)[q],
        ) by {
            if q < before.len() {
                assert(named(universe, names)[q] == before[q]);
            } else {
                let rel = universe.find(key).unwrap();
                assert forall|j: int| 0 <= j < rel@.len() implies input.is_field(
                    (#[trigger] rel@[j]).0,
                ) && input.is_field(rel@[j].1) by {
                    assert(universe.find(key).unwrap()@[j] == rel@[j]);
                }
            }
        }
    }
}

/// `names` are the names of the relations that the request needs from the
/// input: those to join, and behind them those to show.
pub open spec fn names_wanted(names: Seq<Str<'_>>, args: Args) -> bool {
    &&& names.len() == args.relations@.len() + args.show_table@.len()
    &&& forall|k: int|
        0 <= k < args.relations@.len() ==> (#[trigger] names[k])@ == key_of(args.relations@[k])
    &&& forall|k: int|
        0 <= k < args.show_table@.len() ==> (#[trigger] names[args.relations@.len() + k])@
            == key_of(args.show_table@[k])
}

/// The names of the relations that the request needs from the input.
pub fn wanted_names<'b>(args: &'b Args) -> (names: Vec<Str<'b>>)
    ensures
        names_wanted(names@, *args),
{
    let mut names: Vec<Str<'b>> = Vec::new();
    let mut k: usize = 0;
    while k < args.relations.len()
        invariant
            k <= args.relations@.len(),
            names@.len() == k,
            forall|q: int| 0 <= q < k ==> (#[trigger] names@[q])@ == key_of(args.relations@[q]),
        decreases args.relations@.len() - k,
    {
        names.push(Str::new(args.relations[k].as_str()));
        k += 1;
    }
    let mut j: usize = 0;
    while j < args.show_table.len()
        invariant
            j <= args.show_table@.len(),
            names@.len() == args.relations@.len() + j,
            forall|q: int|
                0 <= q < args.relations@.len() ==> (#[trigger] names@[q])@ == key_of(
                    args.relations@[q],
                ),
            forall|q: int|
                0 <= q < j ==> (#[trigger] names@[args.relations@.len() + q])@ == key_of(
                    args.show_table@[q],
                ),
        decreases args.show_table@.len() - j,
    {
        names.push(Str::new(args.show_table[j].as_str()));
        j += 1;
    }
    names
}

/// What `join` returns for a buffer and a request.
///
/// Where a line of the buffer does not parse, it is the error of the first such
/// line. Where all lines parse, it is what `join_universe` returns for the
/// catalogue of the relations that the request names.
pub open spec fn joined_from<'a>(
    input: Input<'a>,
    args: Args,
    done: Result<Joined, JoinError>,
) -> bool {
    match done {
        Err(JoinError::Parse(e)) => exists|j: int| fails_at(input, j, e),
        _ => exists|
            universe: Universe<'a>,
            triples: Seq<(Str<'a>, Str<'a>, Str<'a>)>,
            names: Seq<Str<'_>>,
        | #[trigger]
            catalogued(universe, triples, names) && names_wanted(names, args) && parses(
                input,
                triples,
            ) && join_outcome(args, universe, done),
    }
}

/// Reads the input into a catalogue of the relations that the request names, and
/// joins them.
pub fn join<'a>(args: &Args, input: &Input<'a>) -> (done: Result<Joined, JoinError>)
    requires
        args.relations@.len() < usize::MAX,
    ensures
        joined_from(*input, *args, done),
        done matches Ok(joined) ==> all_fields(*input, rows_of(joined.table@)),
{
    let names = wanted_names(args);
    let universe = match build_universe(input, &names) {
        Ok(universe) => universe,
        Err(e) => {
            return Err(JoinError::Parse(e));
        },
    };
    let done = join_universe(args, input, &universe);
    proof {
        let triples = choose|triples: Seq<(Str<'a>, Str<'a>, Str<'a>)>|
            parses(*input, triples) && catalogued(universe, triples, names@);
        assert(catalogued(universe, triples, names@) && names_wanted(names@, *args) && parses(
            *input,
            triples,
        ) && join_outcome(*args, universe, done));
    }
    done
}


/// The hash join and the sort-merge join give the same rows, as a multiset,
/// where every subject of every relation behind the first is a field. The
/// relations of a pipeline are such.
pub proof fn lemma_hash_and_sort_merge_agree(
    rels: Seq<Seq<(Field, Field)>>,
    ranges: Seq<(Field, Field)>,
    improved: bool,
)
    requires
        rels.len() >= 1,
        ranges.len() == rels.len(),
        forall|k: int, j: int|
            1 <= k < rels.len() && 0 <= j < rels[k].len() ==> (#[trigger] rels[k][j]).0.valid(),
    ensures
        chain(rels, mode_reaches(true, false, ranges), rels.len() - 1).to_multiset() == chain(
            rels,
            mode_reaches(false, improved, ranges),
            rels.len() - 1,
        ).to_multiset(),
{
    lemma_engines_agree(
        rels,
        mode_reaches(true, false, ranges),
        mode_reaches(false, improved, ranges),
        rels.len() - 1,
    );
}

/// The two variants of the sort-merge join give the same rows, as a multiset.
pub proof fn lemma_sort_merge_variants_agree(
    rels: Seq<Seq<(Field, Field)>>,
    ranges: Seq<(Field, Field)>,
)
    requires
        rels.len() >= 1,
        ranges.len() == rels.len(),
    ensures
        chain(rels, mode_reaches(false, false, ranges), rels.len() - 1).to_multiset() == chain(
            rels,
            mode_reaches(false, true, ranges),
            rels.len() - 1,
        ).to_multiset(),
{
    assert(mode_reaches(false, false, ranges) =~= mode_reaches(false, true, ranges));
}

/// The two variants of the hash join give the same rows, as a multiset, where
/// every subject is a field and every pair whose subject lies at or behind the
/// end of the last bucket matches no row.
pub proof fn lemma_hash_variants_agree(rels: Seq<Seq<(Field, Field)>>, ranges: Seq<(Field, Field)>)
    requires
        rels.len() >= 1,
        ranges.len() == rels.len(),
        forall|k: int, j: int|
            1 <= k < rels.len() && 0 <= j < rels[k].len() ==> (#[trigger] rels[k][j]).0.valid(),
        forall|k: int, j: int|
            1 <= k < rels.len() && 0 <= j < rels[k].len() && (#[trigger] rels[k][j]).0.0
                >= hash_reach(true, ranges[k]) ==> matched(
                chain(rels, mode_reaches(true, false, ranges), k - 1),
                rels[k][j],
                k,
            ).len() == 0,
    ensures
        chain(rels, mode_reaches(true, false, ranges), rels.len() - 1).to_multiset() == chain(
            rels,
            mode_reaches(true, true, ranges),
            rels.len() - 1,
        ).to_multiset(),
{
    lemma_engines_agree(
        rels,
        mode_reaches(true, false, ranges),
        mode_reaches(true, true, ranges),
        rels.len() - 1,
    );
}


/// The columns of a row: after join step `upto`, every column up to `upto + 1`
/// holds a field where the relations hold fields only, and every column behind
/// it holds the sentinel.
pub proof fn lemma_row_columns(
    rels: Seq<Seq<(Field, Field)>>,
    reaches: Seq<int>,
    upto: int,
    row: Seq<Field>,
    c: int,
)
    requires
        0 <= upto < rels.len(),
        chain(rels, reaches, upto).contains(row),
        0 <= c <= rels.len(),
    ensures
        c > upto + 1 ==> row[c] == Field::invalid(),
        c <= upto + 1 && (forall|k: int, j: int|
            0 <= k < rels.len() && 0 <= j < rels[k].len() ==> (#[trigger] rels[k][j]).0.valid()
                && rels[k][j].1.valid()) ==> row[c].valid(),
    decreases upto,
{
    lemma_row_invariant(rels, reaches, upto, row);
    if c <= upto + 1 {
        let k = if c <= upto {
            c
        } else {
            upto
        };
        assert(linked(rels, row, k));
    } else if upto == 0 {
        let seeds = seed_rows(rels[0], rels.len() as int);
        let j = choose|j: int| 0 <= j < seeds.len() && seeds[j] == row;
        assert(row[c] == Field::invalid());
    } else {
        let prev = chain(rels, reaches, upto - 1);
        let r = probed(rels[upto], reaches[upto]);
        lemma_join_member(prev, r, upto, row);
        let (k, j) = choose|k: int, j: int|
            0 <= k < prev.len() && 0 <= j < r.len() && (#[trigger] r[j]).0
                == (#[trigger] prev[k])[upto]
                && row == prev[k].update(upto + 1, r[j].1);
        assert(prev.contains(prev[k]));
        lemma_row_invariant(rels, reaches, upto - 1, prev[k]);
        lemma_row_columns(rels, reaches, upto - 1, prev[k], c);
    }
}


/// The bytes of the field that starts at `field`.
pub open spec fn field_bytes(input: Input<'_>, field: Field) -> Seq<u8> {
    input@.subrange(
        field.0 as int,
        field.0 + scan_field(rest(input@, field.0 as int)).unwrap(),
    )
}

/// `texts` are the first rows of the table as text, column by column: `count`
/// rows, or all where there are no more.
pub open spec fn decoded(
    input: Input<'_>,
    table: Seq<Vec<Field>>,
    count: int,
    texts: Seq<Vec<String>>,
) -> bool {
    &&& texts.len() == if count < table.len() {
        count
    } else {
        table.len() as int
    }
    &&& forall|r: int| 0 <= r < texts.len() ==> (#[trigger] texts[r])@.len() == table[r]@.len()
    &&& forall|r: int, c: int|
        0 <= r < texts.len() && 0 <= c < table[r]@.len() ==> (#[trigger] texts[r]@[c])@
            == lossy_text(field_bytes(input, table[r]@[c]))
}

/// The first `count` rows of the table as text.
pub fn decode_rows(input: &Input<'_>, table: &Vec<Vec<Field>>, count: usize) -> (texts: Vec<
    Vec<String>,
>)
    requires
        all_fields(*input, rows_of(table@)),
    ensures
        decoded(*input, table@, count as int, texts@),
{
    let n: usize = if count < table.len() {
        count
    } else {
        table.len()
    };
    let mut texts: Vec<Vec<String>> = Vec::with_capacity(n);
    let mut r: usize = 0;
    while r < n
        invariant
            r <= n <= table@.len(),
            all_fields(*input, rows_of(table@)),
            decoded(*input, table@, r as int, texts@),
        decreases n - r,
    {
        let row = &table[r];
        let width: usize = row.len();
        let mut cells: Vec<String> = Vec::with_capacity(width);
        let mut c: usize = 0;
        while c < width
            invariant
                c <= width,
                r < table@.len(),
                row == table@[r as int],
                width == row@.len(),
                all_fields(*input, rows_of(table@)),
                cells@.len() == c,
                forall|q: int|
                    0 <= q < c ==> (#[trigger] cells@[q])@ == lossy_text(
                        field_bytes(*input, row@[q]),
                    ),
            decreases width - c,
        {
            assert(input.has_field(rows_of(table@)[r as int][c as int]));
            let s = input.extract_str(row[c]);
            cells.push(s.decode());
            c += 1;
        }
        texts.push(cells);
        r += 1;
    }
    texts
}


/// On the relations of a pipeline the hash join and the sort-merge join give the
/// same rows, as a multiset.
pub proof fn lemma_pipeline_engines_agree<'a>(
    input: Input<'a>,
    rels: Seq<Seq<(Str<'a>, Str<'a>)>>,
    improved: bool,
)
    requires
        rels.len() >= 1,
        forall|q: int| 0 <= q < rels.len() ==> held(input, #[trigger] rels[q]),
    ensures
        chain(
            stages(rels),
            mode_reaches(true, false, stage_ranges(rels)),
            rels.len() - 1,
        ).to_multiset() == chain(
            stages(rels),
            mode_reaches(false, improved, stage_ranges(rels)),
            rels.len() - 1,
        ).to_multiset(),
{
    let st = stages(rels);
    assert forall|k: int, j: int| 1 <= k < st.len() && 0 <= j < st[k].len() implies (
    #[trigger] st[k][j]).0.valid() by {
        lemma_stage_fields(input, rels, k, j);
    }
    lemma_hash_and_sort_merge_agree(st, stage_ranges(rels), improved);
}


/// The two requests ask for the same join: the same relations in the same order,
/// with the same engine.
pub open spec fn same_request(a: Args, b: Args) -> bool {
    &&& a.relations@ == b.relations@
    &&& a.hash_join == b.hash_join
    &&& a.sort_merge_join == b.sort_merge_join
    &&& a.improved == b.improved
}

/// The two errors are the same error, with the same names where it has names.
pub open spec fn same_error(a: JoinError, b: JoinError) -> bool {
    match (a, b) {
        (JoinError::Parse(x), JoinError::Parse(y)) => x == y,
        (JoinError::NoMode, JoinError::NoMode) => true,
        (JoinError::BothModes, JoinError::BothModes) => true,
        (
            JoinError::Pipeline(PipelineError::UnknownRelations(x)),
            JoinError::Pipeline(PipelineError::UnknownRelations(y)),
        ) => x@ == y@,
        (
            JoinError::Pipeline(PipelineError::NoJoin),
            JoinError::Pipeline(PipelineError::NoJoin),
        ) => true,
        (JoinError::InvalidRange, JoinError::InvalidRange) => true,
        _ => false,
    }
}

/// The two runs end alike: both fail with the same error, or both give the same
/// rows, as a multiset, and the same number of rows after each step.
pub open spec fn same_outcome(a: Result<Joined, JoinError>, b: Result<Joined, JoinError>) -> bool {
    match (a, b) {
        (Ok(x), Ok(y)) => rows_of(x.table@).to_multiset() == rows_of(y.table@).to_multiset()
            && x.counts@ == y.counts@,
        (Err(x), Err(y)) => same_error(x, y),
        _ => false,
    }
}

/// The two catalogues hold the same pairs under `key`, or both hold nothing.
pub open spec fn agree(a: Universe<'_>, b: Universe<'_>, key: Seq<u8>) -> bool {
    match (a.find(key), b.find(key)) {
        (Some(x), Some(y)) => x@ == y@,
        (None, None) => true,
        _ => false,
    }
}

/// Catalogues that agree on the names hold the same relations for them, and
/// miss the same names.
pub proof fn lemma_named_agree(a: Universe<'_>, b: Universe<'_>, names: Seq<String>)
    requires
        forall|k: int| 0 <= k < names.len() ==> agree(a, b, key_of(#[trigger] names[k])),
    ensures
        named(a, names) == named(b, names),
        missing(a, names) == missing(b, names),
    decreases names.len(),
{
    if names.len() > 0 {
        let front = names.drop_last();
        assert forall|k: int| 0 <= k < front.len() implies agree(
            a,
            b,
            key_of(#[trigger] front[k]),
        ) by {
            assert(front[k] == names[k]);
        }
        lemma_named_agree(a, b, front);
        assert(agree(a, b, key_of(names[names.len() - 1])));
    }
}

/// The same request on catalogues that agree on its relations ends alike.
pub proof fn lemma_outcome_rerun(
    args1: Args,
    args2: Args,
    a: Universe<'_>,
    b: Universe<'_>,
    first: Result<Joined, JoinError>,
    second: Result<Joined, JoinError>,
)
    requires
        same_request(args1, args2),
        forall|k: int|
            0 <= k < args1.relations@.len() ==> agree(a, b, key_of(#[trigger] args1.relations@[k])),
        join_outcome(args1, a, first),
        join_outcome(args2, b, second),
    ensures
        same_outcome(first, second),
{
    lemma_named_agree(a, b, args1.relations@);
    if first is Ok && second is Ok {
        assert(first->Ok_0.counts@ =~= second->Ok_0.counts@);
    }
}

/// A buffer parses to one sequence of triples only.
pub proof fn lemma_parses_once<'a>(
    input: Input<'a>,
    a: Seq<(Str<'a>, Str<'a>, Str<'a>)>,
    b: Seq<(Str<'a>, Str<'a>, Str<'a>)>,
)
    requires
        parses(input, a),
        parses(input, b),
    ensures
        a == b,
{
    let spans = lines_from(input@, 0, true);
    assert forall|k: int| 0 <= k < a.len() implies a[k] == b[k] by {
        assert(is_parse(input, spans[k], a[k]));
        assert(is_parse(input, spans[k], b[k]));
        assert(a[k].0.bytes =~= b[k].0.bytes);
        assert(a[k].1.bytes =~= b[k].1.bytes);
        assert(a[k].2.bytes =~= b[k].2.bytes);
    }
    assert(a =~= b);
}

/// Idempotence: two runs of `join` on the same buffer, for requests that ask for
/// the same join, end alike. Both fail with the same error, or both give the
/// same rows, as a multiset, and the same number of rows after each step.
pub proof fn lemma_join_rerun<'a>(
    input: Input<'a>,
    args1: Args,
    args2: Args,
    first: Result<Joined, JoinError>,
    second: Result<Joined, JoinError>,
)
    requires
        same_request(args1, args2),
        joined_from(input, args1, first),
        joined_from(input, args2, second),
    ensures
        same_outcome(first, second),
{
    let spans = lines_from(input@, 0, true);
    match (first, second) {
        (Err(JoinError::Parse(e1)), Err(JoinError::Parse(e2))) => {
            let j1 = choose|j: int| fails_at(input, j, e1);
            let j2 = choose|j: int| fails_at(input, j, e2);
            if j1 < j2 {
                assert(scan_line(input@.subrange(spans[j1].0, spans[j1].1)) is Ok);
            } else if j2 < j1 {
                assert(scan_line(input@.subrange(spans[j2].0, spans[j2].1)) is Ok);
            }
        },
        (Err(JoinError::Parse(e1)), _) => {
            let j1 = choose|j: int| fails_at(input, j, e1);
            let (u, t, n) = choose|
                u: Universe<'a>,
                t: Seq<(Str<'a>, Str<'a>, Str<'a>)>,
                n: Seq<Str<'_>>,
            | #[trigger]
                catalogued(u, t, n) && names_wanted(n, args2) && parses(input, t) && join_outcome(
                    args2,
                    u,
                    second,
                );
            assert(is_parse(input, spans[j1], t[j1]));
        },
        (_, Err(JoinError::Parse(e2))) => {
            let j2 = choose|j: int| fails_at(input, j, e2);
            let (u, t, n) = choose|
                u: Universe<'a>,
                t: Seq<(Str<'a>, Str<'a>, Str<'a>)>,
                n: Seq<Str<'_>>,
            | #[trigger]
                catalogued(u, t, n) && names_wanted(n, args1) && parses(input, t) && join_outcome(
                    args1,
                    u,
                    first,
                );
            assert(is_parse(input, spans[j2], t[j2]));
        },
        _ => {
            let (u1, t1, n1) = choose|
                u: Universe<'a>,
                t: Seq<(Str<'a>, Str<'a>, Str<'a>)>,
                n: Seq<Str<'_>>,
            | #[trigger]
                catalogued(u, t, n) && names_wanted(n, args1) && parses(input, t) && join_outcome(
                    args1,
                    u,
                    first,
                );
            let (u2, t2, n2) = choose|
                u: Universe<'a>,
                t: Seq<(Str<'a>, Str<'a>, Str<'a>)>,
                n: Seq<Str<'_>>,
            | #[trigger]
                catalogued(u, t, n) && names_wanted(n, args2) && parses(input, t) && join_outcome(
                    args2,
                    u,
                    second,
                );
            lemma_parses_once(input, t1, t2);
            assert forall|k: int| 0 <= k < args1.relations@.len() implies agree(
                u1,
                u2,
                key_of(#[trigger] args1.relations@[k]),
            ) by {
                let key = key_of(args1.relations@[k]);
                assert(n1[k]@ == key);
                assert(n2[k]@ == key);
                assert(listed(n1, key));
                assert(listed(n2, key));
            }
            lemma_outcome_rerun(args1, args2, u1, u2, first, second);
        },
    }
}

/// The rows of step 0: row `k` starts with the subject and the object of pair
/// `k` of the relation and goes on with the sentinel, `n + 1` columns in all.
pub proof fn lemma_seed_rows(r: Seq<(Field, Field)>, n: int, k: int)
    requires
        1 <= n,
        0 <= k < r.len(),
    ensures
        seed_rows(r, n).len() == r.len(),
        seed_rows(r, n)[k].len() == n + 1,
        seed_rows(r, n)[k][0] == r[k].0,
        seed_rows(r, n)[k][1] == r[k].1,
        forall|c: int| 2 <= c <= n ==> #[trigger] seed_rows(r, n)[k][c] == Field::invalid(),
{
}

/// The rows of a later step: every row of the table after the step is a row of
/// the table before it with the object of a pair of the relation in column
/// `i + 1`, and the subject of that pair is the row's column `i`.
pub proof fn lemma_step_rows(
    before: Seq<Seq<Field>>,
    after: Seq<Seq<Field>>,
    r: Seq<(Field, Field)>,
    reach: int,
    i: int,
    a: int,
)
    requires
        0 <= i,
        wide(before, i),
        after.to_multiset() == join_rows(before, probed(r, reach), i).to_multiset(),
        0 <= a < after.len(),
    ensures
        exists|k: int, j: int|
            0 <= k < before.len() && 0 <= j < r.len() && (#[trigger] r[j]).0 == after[a][i]
                && r[j].1 == after[a][i + 1] && after[a].len() == (#[trigger] before[k]).len()
                && forall|c: int| 0 <= c <= i ==> after[a][c] == before[k][c],
{
    broadcast use group_to_multiset_ensures;

    let x = after[a];
    let p = probed(r, reach);
    assert(after.to_multiset().count(x) > 0);
    assert(join_rows(before, p, i).contains(x));
    lemma_join_member(before, p, i, x);
    let (k, m) = choose|k: int, m: int|
        0 <= k < before.len() && 0 <= m < p.len() && (#[trigger] p[m]).0 == (
        #[trigger] before[k])[i] && x == before[k].update(i + 1, p[m].1);
    lemma_probed_member(r, reach, m);
    let j = choose|j: int| 0 <= j < r.len() && #[trigger] r[j] == p[m];
    assert(before[k].len() > i + 1);
    assert(r[j].0 == after[a][i] && r[j].1 == after[a][i + 1] && after[a].len()
        == before[k].len());
}

} // verus!
