//! The pipeline: the relations to join, turned from strings into fields.
//!
//! Each relation but the last gets a dictionary from its objects to the field of
//! the first subject that was seen with the object. The subjects of the next
//! relation are looked up in it: a pair whose subject is in the dictionary takes
//! the dictionary's field for it, and any other pair is dropped.

use crate::input::{Field, Input, Str};
use crate::relation::{within, Relation, StrRelation, Universe};
use crate::strmap::StrMap;
use crate::validation::{invalids, valids, Validation};
use rayon::iter::{
    IndexedParallelIterator, IntoParallelIterator, IntoParallelRefIterator, ParallelIterator,
};
use vstd::prelude::*;
use vstd::string::*;

verus! {

/// A dictionary from the objects of a relation to fields.
pub type Dictionary<'a> = StrMap<'a, Field>;

/// The field of the subject of the first pair of `rel` whose object has the bytes
/// `obj`.
pub open spec fn first_subject<'a>(rel: Seq<(Str<'a>, Str<'a>)>, obj: Seq<u8>) -> Option<Field>
    decreases rel.len(),
{
    if rel.len() == 0 {
        None
    } else {
        match first_subject(rel.drop_last(), obj) {
            Some(f) => Some(f),
            None => if rel.last().1@ == obj {
                Some(rel.last().0.origin)
            } else {
                None
            },
        }
    }
}

/// The pairs of `rel` with a field for each object: the object's own place in the
/// buffer where `own` is set, and what the relation's dictionary holds for it
/// where it is not.
pub open spec fn with_objects<'a>(rel: Seq<(Str<'a>, Str<'a>)>, own: bool) -> Seq<
    (Str<'a>, Field),
> {
    Seq::new(
        rel.len(),
        |j: int|
            (
                rel[j].0,
                if own {
                    rel[j].1.origin
                } else {
                    first_subject(rel, rel[j].1@).unwrap()
                },
            ),
    )
}

/// The pairs whose subject the dictionary holds, each with the dictionary's
/// field in the place of its subject, in the order of `pairs`.
pub open spec fn resolved_by<'a>(dictionary: Dictionary<'_>, pairs: Seq<(Str<'a>, Field)>) -> Seq<
    (Field, Field),
>
    decreases pairs.len(),
{
    if pairs.len() == 0 {
        Seq::empty()
    } else {
        let before = resolved_by(dictionary, pairs.drop_last());
        match dictionary.find(pairs.last().0@) {
            Some(f) => before.push((f, pairs.last().1)),
            None => before,
        }
    }
}

/// The pairs whose subject is an object of `prev`, each with the field that the
/// dictionary of `prev` holds for it in the place of its subject.
pub open spec fn resolved<'a>(prev: Seq<(Str<'_>, Str<'_>)>, pairs: Seq<(Str<'a>, Field)>) -> Seq<
    (Field, Field),
>
    decreases pairs.len(),
{
    if pairs.len() == 0 {
        Seq::empty()
    } else {
        let before = resolved(prev, pairs.drop_last());
        match first_subject(prev, pairs.last().0@) {
            Some(f) => before.push((f, pairs.last().1)),
            None => before,
        }
    }
}

/// The least and the greatest subject of a relation that is not empty.
pub open spec fn bounds(rel: Seq<(Field, Field)>) -> (Field, Field)
    decreases rel.len(),
{
    if rel.len() <= 1 {
        (rel[0].0, rel[0].0)
    } else {
        let b = bounds(rel.drop_last());
        let s = rel.last().0;
        (
            if s.0 < b.0.0 {
                s
            } else {
                b.0
            },
            if s.0 > b.1.0 {
                s
            } else {
                b.1
            },
        )
    }
}

/// The range of the subjects of a relation: the sentinel twice where it is empty.
pub open spec fn range_of(rel: Seq<(Field, Field)>) -> (Field, Field) {
    if rel.len() == 0 {
        (Field::invalid(), Field::invalid())
    } else {
        bounds(rel)
    }
}

/// Relation `k` of the pipeline that is made of the relations `rels`.
///
/// The first relation keeps all its pairs. Every other keeps the pairs whose
/// subject is an object of the relation before it.
pub open spec fn stage(rels: Seq<Seq<(Str<'_>, Str<'_>)>>, k: int) -> Seq<(Field, Field)> {
    if k == 0 {
        with_objects(rels[0], false).map_values(|p: (Str<'_>, Field)| (p.0.origin, p.1))
    } else {
        resolved(rels[k - 1], with_objects(rels[k], k == rels.len() - 1))
    }
}

/// `out` holds relation `k` of the pipeline and the range of its subjects. The
/// first relation has no range.
pub open spec fn staged(
    out: (Relation, (Field, Field)),
    rels: Seq<Seq<(Str<'_>, Str<'_>)>>,
    k: int,
) -> bool {
    &&& out.0@ == stage(rels, k)
    &&& out.1 == if k == 0 {
        (Field::invalid(), Field::invalid())
    } else {
        range_of(out.0@)
    }
}

/// `out` holds the pairs of `rel` with the dictionary's field for each object,
/// and the dictionary of `rel`.
pub open spec fn mapped<'a>(
    out: (Vec<(Str<'a>, Field)>, Dictionary<'a>),
    rel: Seq<(Str<'a>, Str<'a>)>,
) -> bool {
    &&& out.0@ == with_objects(rel, false)
    &&& forall|obj: Seq<u8>| #[trigger] out.1.find(obj) == first_subject(rel, obj)
}

/// The buffer holds every subject and object of the relation.
pub open spec fn held<'a>(input: Input<'a>, rel: Seq<(Str<'a>, Str<'a>)>) -> bool {
    forall|j: int| 0 <= j < rel.len() ==> input.is_field((#[trigger] rel[j]).0)
        && input.is_field(rel[j].1)
}

/// What a dictionary holds once it holds something for an object, it holds
/// whatever is added behind.
pub proof fn lemma_first_subject_stable<'a>(rel: Seq<(Str<'a>, Str<'a>)>, m: int, obj: Seq<u8>)
    requires
        0 <= m <= rel.len(),
        first_subject(rel.take(m), obj) is Some,
    ensures
        first_subject(rel, obj) == first_subject(rel.take(m), obj),
    decreases rel.len(),
{
    if m == rel.len() {
        assert(rel.take(m) =~= rel);
    } else {
        assert(rel.drop_last().take(m) =~= rel.take(m));
        lemma_first_subject_stable(rel.drop_last(), m, obj);
    }
}

/// Dictionary soundness: what the dictionary of a relation holds for an object is
/// the field of the subject of one of the relation's pairs with that object.
pub proof fn lemma_dictionary_sound<'a>(rel: Seq<(Str<'a>, Str<'a>)>, obj: Seq<u8>, f: Field)
    requires
        first_subject(rel, obj) == Some(f),
    ensures
        exists|j: int| 0 <= j < rel.len() && (#[trigger] rel[j]).1@ == obj && rel[j].0.origin == f,
    decreases rel.len(),
{
    if rel.len() > 0 {
        if first_subject(rel.drop_last(), obj) is Some {
            lemma_dictionary_sound(rel.drop_last(), obj, f);
            let j = choose|j: int|
                0 <= j < rel.drop_last().len() && (#[trigger] rel.drop_last()[j]).1@ == obj
                    && rel.drop_last()[j].0.origin == f;
            assert(rel[j] == rel.drop_last()[j]);
        } else {
            assert(rel[rel.len() - 1] == rel.last());
        }
    }
}

/// A dictionary that holds what the dictionary of `prev` holds resolves as it.
pub proof fn lemma_resolved_by<'a>(
    dictionary: Dictionary<'_>,
    prev: Seq<(Str<'_>, Str<'_>)>,
    pairs: Seq<(Str<'a>, Field)>,
)
    requires
        forall|obj: Seq<u8>| #[trigger] dictionary.find(obj) == first_subject(prev, obj),
    ensures
        resolved_by(dictionary, pairs) == resolved(prev, pairs),
    decreases pairs.len(),
{
    if pairs.len() > 0 {
        lemma_resolved_by(dictionary, prev, pairs.drop_last());
    }
}

/// Every subject of a relation lies within its bounds.
pub proof fn lemma_bounds(rel: Seq<(Field, Field)>, j: int)
    requires
        0 <= j < rel.len(),
    ensures
        bounds(rel).0.0 <= rel[j].0.0 <= bounds(rel).1.0,
        bounds(rel).0.0 <= bounds(rel).1.0,
    decreases rel.len(),
{
    if rel.len() > 1 {
        if j < rel.len() - 1 {
            lemma_bounds(rel.drop_last(), j);
        } else {
            lemma_bounds(rel.drop_last(), 0);
        }
    }
}

/// Builds the dictionary of `rel`, and the pairs of `rel` with the dictionary's
/// field for each object.
pub fn map_objects<'a>(input: &Input<'a>, rel: &StrRelation<'a>) -> (out: (
    Vec<(Str<'a>, Field)>,
    Dictionary<'a>,
))
    requires
        held(*input, rel@),
    ensures
        mapped(out, rel@),
{
    let n: usize = rel.len();
    let mut dictionary: Dictionary<'a> = StrMap::new();
    let mut pairs: Vec<(Str<'a>, Field)> = Vec::with_capacity(n);
    let mut j: usize = 0;
    assert(rel@.take(0) =~= Seq::empty());
    while j < n
        invariant
            j <= n,
            n == rel@.len(),
            held(*input, rel@),
            forall|obj: Seq<u8>| #[trigger]
                dictionary.find(obj) == first_subject(rel@.take(j as int), obj),
            pairs@ == with_objects(rel@, false).take(j as int),
        decreases n - j,
    {
        let (subj, obj) = rel[j];
        let ghost before = dictionary;
        let field = dictionary.get_or_insert(obj, input.extract_field(subj));
        proof {
            let was = rel@.take(j as int);
            let now = rel@.take(j + 1);
            assert(now.drop_last() =~= was);
            assert(now.last() == rel@[j as int]);
            assert forall|other: Seq<u8>| #[trigger]
                dictionary.find(other) == first_subject(now, other) by {
                assert(before.find(other) == first_subject(was, other));
            }
            lemma_first_subject_stable(rel@, j + 1, obj@);
            assert(with_objects(rel@, false).take(j + 1) =~= with_objects(rel@, false).take(
                j as int,
            ).push((subj, field)));
        }
        pairs.push((subj, field));
        j += 1;
    }
    proof {
        assert(rel@.take(n as int) =~= rel@);
        assert(with_objects(rel@, false).take(n as int) =~= with_objects(rel@, false));
    }
    (pairs, dictionary)
}


/// The relations, as sequences.
pub open spec fn views<'a>(rels: Seq<&StrRelation<'a>>) -> Seq<Seq<(Str<'a>, Str<'a>)>> {
    rels.map_values(|r: &StrRelation<'a>| r@)
}

/// The buffer holds every subject and object of every relation.
pub open spec fn all_held<'a>(input: Input<'a>, rels: Seq<&StrRelation<'a>>) -> bool {
    forall|q: int| 0 <= q < rels.len() ==> held(input, (#[trigger] rels[q])@)
}

/// `out` holds, for each relation but the last, its pairs with the fields of
/// their objects and its dictionary.
pub open spec fn all_mapped<'a>(
    out: Seq<(Vec<(Str<'a>, Field)>, Dictionary<'a>)>,
    rels: Seq<&StrRelation<'a>>,
) -> bool {
    &&& out.len() == rels.len() - 1
    &&& forall|q: int| 0 <= q < out.len() ==> mapped(#[trigger] out[q], rels[q]@)
}

/// `out` holds, for each relation, its pairs with the fields of their objects
/// and its dictionary.
pub open spec fn each_mapped<'a>(
    out: Seq<(Vec<(Str<'a>, Field)>, Dictionary<'a>)>,
    rels: Seq<&StrRelation<'a>>,
) -> bool {
    &&& out.len() == rels.len()
    &&& forall|q: int| 0 <= q < out.len() ==> mapped(#[trigger] out[q], rels[q]@)
}

/// `out` holds the relations of the pipeline, each with its range.
pub open spec fn all_staged<'a>(
    out: Seq<(Relation, (Field, Field))>,
    rels: Seq<&StrRelation<'a>>,
) -> bool {
    &&& out.len() == rels.len()
    &&& forall|k: int| 0 <= k < out.len() ==> staged(#[trigger] out[k], views(rels), k)
}

/// Builds relation `k` of the pipeline, and the range of its subjects.
pub fn build_stage<'a>(
    input: &Input<'a>,
    rels: &Vec<&StrRelation<'a>>,
    mapped_objs: &Vec<(Vec<(Str<'a>, Field)>, Dictionary<'a>)>,
    k: usize,
) -> (out: (Relation, (Field, Field)))
    requires
        rels@.len() >= 2,
        k < rels@.len(),
        all_held(*input, rels@),
        all_mapped(mapped_objs@, rels@),
    ensures
        staged(out, views(rels@), k as int),
{
    let n: usize = rels.len();
    let mut relation: Relation = Vec::new();
    let mut range: (Field, Field) = (Field::invalid(), Field::invalid());
    let ghost rs = views(rels@);
    if k == 0 {
        let pairs = &mapped_objs[0].0;
        assert(mapped(mapped_objs@[0], rels@[0]@));
        assert(held(*input, rels@[0]@));
        let ghost target = stage(rs, 0);
        let m: usize = pairs.len();
        let mut j: usize = 0;
        while j < m
            invariant
                j <= m,
                m == pairs@.len(),
                pairs@ == with_objects(rels@[0]@, false),
                held(*input, rels@[0]@),
                target == with_objects(rels@[0]@, false).map_values(
                    |p: (Str<'_>, Field)| (p.0.origin, p.1),
                ),
                relation@ == target.take(j as int),
            decreases m - j,
        {
            let (subj, obj_f) = pairs[j];
            assert(subj == rels@[0]@[j as int].0);
            relation.push((input.extract_field(subj), obj_f));
            assert(target.take(j + 1) =~= target.take(j as int).push(target[j as int]));
            j += 1;
        }
        assert(target.take(m as int) =~= target);
    } else if k + 1 < n {
        assert(mapped(mapped_objs@[k - 1], rels@[k - 1]@));
        assert(mapped(mapped_objs@[k as int], rels@[k as int]@));
        Pipeline::resolve(&mut relation, &mut range, &mapped_objs[k - 1].1, &mapped_objs[k].0);
        proof {
            lemma_resolved_by(mapped_objs@[k - 1].1, rs[k - 1], mapped_objs@[k as int].0@);
            assert(Seq::<(Field, Field)>::empty() + resolved(
                rs[k - 1],
                with_objects(rs[k as int], false),
            ) =~= stage(rs, k as int));
        }
    } else {
        let last = rels[k];
        assert(held(*input, rels@[k as int]@));
        let m: usize = last.len();
        let mut pairs: Vec<(Str<'a>, Field)> = Vec::with_capacity(m);
        let mut j: usize = 0;
        while j < m
            invariant
                j <= m,
                m == last@.len(),
                held(*input, last@),
                pairs@ == with_objects(last@, true).take(j as int),
            decreases m - j,
        {
            let (subj, obj) = last[j];
            pairs.push((subj, input.extract_field(obj)));
            assert(with_objects(last@, true).take(j + 1) =~= with_objects(last@, true).take(
                j as int,
            ).push((subj, obj.origin)));
            j += 1;
        }
        assert(with_objects(last@, true).take(m as int) =~= with_objects(last@, true));
        assert(mapped(mapped_objs@[k - 1], rels@[k - 1]@));
        Pipeline::resolve(&mut relation, &mut range, &mapped_objs[k - 1].1, &pairs);
        proof {
            lemma_resolved_by(mapped_objs@[k - 1].1, rs[k - 1], pairs@);
            assert(Seq::<(Field, Field)>::empty() + resolved(
                rs[k - 1],
                with_objects(rs[k as int], true),
            ) =~= stage(rs, k as int));
        }
    }
    (relation, range)
}

/// `par_iter` and `map` of `rayon` run `map_objects` on every relation, in
/// parallel, and `collect_into_vec` gathers what the calls return, in the order
/// of the relations.
#[verifier::external_body]
fn map_all<'a>(input: &Input<'a>, rels: &[&StrRelation<'a>]) -> (out: Vec<
    (Vec<(Str<'a>, Field)>, Dictionary<'a>),
>)
    requires
        all_held(*input, rels@),
    ensures
        each_mapped(out@, rels@),
{
    let mut out = Vec::new();
    rels.par_iter().map(|rel| map_objects(input, rel)).collect_into_vec(&mut out);
    out
}

/// `into_par_iter` and `map` of `rayon` run `build_stage` for every index of a
/// relation, in parallel, and `collect_into_vec` gathers what the calls return,
/// in the order of the indices.
#[verifier::external_body]
fn build_stages<'a>(
    input: &Input<'a>,
    rels: &Vec<&StrRelation<'a>>,
    mapped_objs: &Vec<(Vec<(Str<'a>, Field)>, Dictionary<'a>)>,
) -> (out: Vec<(Relation, (Field, Field))>)
    requires
        rels@.len() >= 2,
        all_held(*input, rels@),
        all_mapped(mapped_objs@, rels@),
    ensures
        all_staged(out@, rels@),
{
    let mut out = Vec::new();
    (0..rels.len()).into_par_iter().map(
        |k| build_stage(input, rels, mapped_objs, k),
    ).collect_into_vec(&mut out);
    out
}

/// Why no pipeline could be built.
pub enum PipelineError {
    /// The catalogue holds no relation of these names.
    UnknownRelations(Vec<String>),
    /// Fewer than two relations were named.
    NoJoin,
}

/// The names, put one behind the other: a comma between them, and "and" before
/// the last where there are two or more.
pub open spec fn listing(names: Seq<String>, upto: int) -> Seq<char>
    decreases upto,
{
    if upto <= 0 {
        Seq::empty()
    } else if upto == 1 {
        names[0]@
    } else {
        listing(names, upto - 1) + (if upto == names.len() {
            ", and "@
        } else {
            ", "@
        }) + names[upto - 1]@
    }
}

impl PipelineError {
    /// What `message` says.
    pub open spec fn text(self) -> Seq<char> {
        match self {
            PipelineError::NoJoin => "no join to be performed"@,
            PipelineError::UnknownRelations(names) => "unknown relations: "@ + listing(
                names@,
                names@.len() as int,
            ),
        }
    }

    /// The error in words.
    pub fn message(&self) -> (text: String)
        ensures
            text@ == self.text(),
    {
        match self {
            PipelineError::NoJoin => String::from_str("no join to be performed"),
            PipelineError::UnknownRelations(names) => {
                let n: usize = names.len();
                let mut text = String::from_str("unknown relations: ");
                let ghost head = text@;
                let mut i: usize = 0;
                assert(head + listing(names@, 0) =~= head);
                while i < n
                    invariant
                        i <= n,
                        n == names@.len(),
                        text@ == head + listing(names@, i as int),
                    decreases n - i,
                {
                    let ghost before = text@;
                    if i == 0 {
                        assert(head + names@[0]@ =~= head + listing(names@, 1));
                    } else if i + 1 == n {
                        text.append(", and ");
                        assert(before + ", and "@ + names@[i as int]@ =~= head + listing(
                            names@,
                            i + 1,
                        ));
                    } else {
                        text.append(", ");
                        assert(before + ", "@ + names@[i as int]@ =~= head + listing(
                            names@,
                            i + 1,
                        ));
                    }
                    text.append(names[i].as_str());
                    i += 1;
                }
                text
            },
        }
    }
}

/// The relations to join in field form, and the range of the subjects of each.
pub struct Pipeline {
    pub relations: Vec<Relation>,
    pub ranges: Vec<(Field, Field)>,
}

/// The bytes under which the catalogue holds a relation of this name.
pub open spec fn key_of(name: String) -> Seq<u8> {
    vstd::utf8::encode_utf8(name@)
}

/// The names that the catalogue holds no relation for, in the order of `names`.
pub open spec fn missing(universe: Universe<'_>, names: Seq<String>) -> Seq<String>
    decreases names.len(),
{
    if names.len() == 0 {
        Seq::empty()
    } else {
        let before = missing(universe, names.drop_last());
        if universe.find(key_of(names.last())) is Some {
            before
        } else {
            before.push(names.last())
        }
    }
}

/// The relations that the catalogue holds for the names, in the order of `names`.
pub open spec fn named<'a>(universe: Universe<'a>, names: Seq<String>) -> Seq<
    Seq<(Str<'a>, Str<'a>)>,
>
    decreases names.len(),
{
    if names.len() == 0 {
        Seq::empty()
    } else {
        let before = named(universe, names.drop_last());
        match universe.find(key_of(names.last())) {
            Some(rel) => before.push(rel@),
            None => before,
        }
    }
}

impl Pipeline {
    /// Looks the subject of each pair up in the dictionary. A pair whose subject it
    /// holds goes to `rel_out` with the dictionary's field for the subject, and
    /// `range_out` grows to hold that field. Any other pair is dropped.
    pub fn resolve<'a>(
        rel_out: &mut Relation,
        range_out: &mut (Field, Field),
        dictionary: &Dictionary<'_>,
        pairs: &Vec<(Str<'a>, Field)>,
    )
        ensures
            final(rel_out)@ == old(rel_out)@ + resolved_by(*dictionary, pairs@),
            *final(range_out) == if resolved_by(*dictionary, pairs@).len() == 0 {
                *old(range_out)
            } else {
                bounds(resolved_by(*dictionary, pairs@))
            },
    {
        let n: usize = pairs.len();
        rel_out.reserve(n);
        let mut first = true;
        let mut j: usize = 0;
        let ghost start = rel_out@;
        assert(pairs@.take(0) =~= Seq::empty());
        assert(start + Seq::<(Field, Field)>::empty() =~= start);
        while j < n
            invariant
                j <= n,
                n == pairs@.len(),
                rel_out@ == start + resolved_by(*dictionary, pairs@.take(j as int)),
                first == (resolved_by(*dictionary, pairs@.take(j as int)).len() == 0),
                *range_out == if first {
                    *old(range_out)
                } else {
                    bounds(resolved_by(*dictionary, pairs@.take(j as int)))
                },
            decreases n - j,
        {
            let (subj, obj_f) = pairs[j];
            proof {
                assert(pairs@.take(j + 1).drop_last() =~= pairs@.take(j as int));
                assert(pairs@.take(j + 1).last() == pairs@[j as int]);
            }
            let ghost got = resolved_by(*dictionary, pairs@.take(j as int));
            match dictionary.get(subj) {
                Some(found) => {
                    let subj_f: Field = *found;
                    rel_out.push((subj_f, obj_f));
                    assert((start + got).push((subj_f, obj_f))
                        =~= start + got.push((subj_f, obj_f)));
                    assert(got.push((subj_f, obj_f)).drop_last() =~= got);
                    if first {
                        *range_out = (subj_f, subj_f);
                        first = false;
                    } else {
                        if subj_f.0 < range_out.0.0 {
                            range_out.0 = subj_f;
                        }
                        if subj_f.0 > range_out.1.0 {
                            range_out.1 = subj_f;
                        }
                    }
                },
                None => {},
            }
            j += 1;
        }
        assert(pairs@.take(n as int) =~= pairs@);
    }

    /// This is the pipeline that is made of the relations `rels`.
    pub open spec fn made_of(self, rels: Seq<Seq<(Str<'_>, Str<'_>)>>) -> bool {
        &&& self.relations@.len() == rels.len()
        &&& self.ranges@.len() == rels.len()
        &&& forall|k: int|
            0 <= k < rels.len() ==> staged((#[trigger] self.relations@[k], self.ranges@[k]),
                rels, k)
    }

    /// Builds the pipeline of the relations that are named, in the order of the
    /// names.
    ///
    /// Names that the catalogue holds no relation for are reported all at once.
    /// Only where every name is known does it matter whether they are two at
    /// the least.
    #[verifier::rlimit(30)]
    pub fn build<'a>(input: &Input<'a>, universe: &Universe<'a>,
        relation_names: &Vec<String>) -> (built:
        Result<Pipeline, PipelineError>)
        requires
            within(*universe, *input),
        ensures
            match built {
                Ok(pipeline) => missing(*universe, relation_names@).len() == 0
                    && relation_names@.len() >= 2 && pipeline.made_of(
                    named(*universe, relation_names@),
                ),
                Err(PipelineError::UnknownRelations(names)) => names@.len() > 0 && names@
                    == missing(*universe, relation_names@),
                Err(PipelineError::NoJoin) => missing(*universe, relation_names@).len() == 0
                    && relation_names@.len() < 2,
            },
    {
        let n: usize = relation_names.len();
        let mut items: Vec<Validation<&StrRelation<'a>, String>> = Vec::with_capacity(n);
        let mut i: usize = 0;
        assert(relation_names@.take(0) =~= Seq::<String>::empty());
        while i < n
            invariant
                i <= n,
                n == relation_names@.len(),
                within(*universe, *input),
                items@.len() == i,
                views(valids(items@)) == named(*universe, relation_names@.take(i as int)),
                invalids(items@) == missing(*universe, relation_names@.take(i as int)),
                all_held(*input, valids(items@)),
            decreases n - i,
        {
            let name = &relation_names[i];
            let ghost before = items@;
            proof {
                assert(relation_names@.take(i + 1).drop_last() =~= relation_names@.take(i as int));
                assert(relation_names@.take(i + 1).last() == *name);
            }
            let item = match universe.get(Str::new(name.as_str())) {
                Some(rel) => Validation::Valid(rel),
                None => Validation::Invalid(name.clone()),
            };
            let ghost given = item;
            items.push(item);
            proof {
                assert(items@.drop_last() =~= before);
                match given {
                    Validation::Valid(rel) => {
                        assert(views(valids(before).push(rel)) =~= views(valids(before)).push(
                            rel@,
                        ));
                        assert forall|q: int| 0 <= q < valids(items@).len() implies held(
                            *input,
                            (#[trigger] valids(items@)[q])@,
                        ) by {
                            if q < valids(before).len() {
                                assert(valids(items@)[q] == valids(before)[q]);
                            } else {
                                let key = key_of(*name);
                                assert(universe.find(key) == Some(*rel));
                                assert(valids(items@)[q] == rel);
                                assert forall|j: int| 0 <= j < rel@.len() implies input.is_field(
                                    (#[trigger] rel@[j]).0,
                                ) && input.is_field(rel@[j].1) by {
                                    assert(universe.find(key).unwrap()@[j] == rel@[j]);
                                }
                            }
                        }
                    },
                    Validation::Invalid(_) => {},
                }
            }
            i += 1;
        }
        assert(relation_names@.take(n as int) =~= relation_names@);
        let ghost given = items@;
        let rels = match Validation::from_iter(items) {
            Validation::Valid(rels) => rels,
            Validation::Invalid(unknown) => {
                return Err(PipelineError::UnknownRelations(unknown));
            },
        };
        if rels.len() < 2 {
            proof {
                lemma_named_len(*universe, relation_names@);
            }
            return Err(PipelineError::NoJoin);
        }
        proof {
            lemma_named_len(*universe, relation_names@);
            assert(rels@ == valids(given));
        }
        // Every relation but the last gets a dictionary.
        let front = vstd::slice::slice_subrange(rels.as_slice(), 0, rels.len() - 1);
        let mapped_objs = map_all(input, front);
        assert(all_mapped(mapped_objs@, rels@)) by {
            assert forall|q: int| 0 <= q < mapped_objs@.len() implies mapped(
                #[trigger] mapped_objs@[q],
                rels@[q]@,
            ) by {
                assert(front@[q] == rels@[q]);
            }
        }
        let stages = build_stages(input, &rels, &mapped_objs);
        let mut relations: Vec<Relation> = Vec::with_capacity(rels.len());
        let mut ranges: Vec<(Field, Field)> = Vec::with_capacity(rels.len());
        let mut stages = stages;
        let ghost all = stages@;
        let ghost rs = views(rels@);
        let mut back: Vec<(Relation, (Field, Field))> = Vec::with_capacity(rels.len());
        let count: usize = stages.len();
        let mut k: usize = count;
        while k > 0
            invariant
                k <= count,
                count == all.len(),
                stages@ == all.take(k as int),
                back@.len() == count - k,
                forall|q: int| 0 <= q < back@.len() ==> #[trigger] back@[q] == all[count - 1 - q],
            decreases k,
        {
            match stages.pop() {
                Some(out) => {
                    back.push(out);
                },
                None => {},
            }
            k -= 1;
            assert(stages@ =~= all.take(k as int));
        }
        while k < count
            invariant
                k <= count,
                count == all.len(),
                back@.len() == count - k,
                forall|q: int| 0 <= q < back@.len() ==> #[trigger] back@[q] == all[count - 1 - q],
                relations@.len() == k,
                ranges@.len() == k,
                forall|q: int| 0 <= q < k ==> (#[trigger] relations@[q], ranges@[q]) == all[q],
            decreases count - k,
        {
            match back.pop() {
                Some(out) => {
                    assert(out == all[k as int]);
                    relations.push(out.0);
                    ranges.push(out.1);
                },
                None => {},
            }
            k += 1;
        }
        let pipeline = Pipeline { relations, ranges };
        proof {
            assert forall|q: int| 0 <= q < rs.len() implies staged(
                (#[trigger] pipeline.relations@[q], pipeline.ranges@[q]),
                rs,
                q,
            ) by {
                assert((pipeline.relations@[q], pipeline.ranges@[q]) == all[q]);
            }
        }
        Ok(pipeline)
    }
}

/// There are as many relations as names where no name is missing.
pub proof fn lemma_named_len(universe: Universe<'_>, names: Seq<String>)
    ensures
        named(universe, names).len() + missing(universe, names).len() == names.len(),
    decreases names.len(),
{
    if names.len() > 0 {
        lemma_named_len(universe, names.drop_last());
    }
}


/// Every pair of a resolved relation comes from one of the pairs that were to
/// be resolved: its subject is what the dictionary holds for that pair's subject.
pub proof fn lemma_resolved_member<'a>(
    prev: Seq<(Str<'_>, Str<'_>)>,
    pairs: Seq<(Str<'a>, Field)>,
    j: int,
)
    requires
        0 <= j < resolved(prev, pairs).len(),
    ensures
        exists|m: int|
            0 <= m < pairs.len() && first_subject(prev, (#[trigger] pairs[m]).0@) == Some(
                resolved(prev, pairs)[j].0,
            ) && pairs[m].1 == resolved(prev, pairs)[j].1,
    decreases pairs.len(),
{
    if pairs.len() > 0 {
        let before = resolved(prev, pairs.drop_last());
        if j < before.len() {
            lemma_resolved_member(prev, pairs.drop_last(), j);
            let m = choose|m: int|
                0 <= m < pairs.drop_last().len() && first_subject(
                    prev,
                    (#[trigger] pairs.drop_last()[m]).0@,
                ) == Some(before[j].0) && pairs.drop_last()[m].1 == before[j].1;
            assert(pairs[m] == pairs.drop_last()[m]);
        } else {
            assert(pairs[pairs.len() - 1] == pairs.last());
        }
    }
}

/// The dictionary of a relation holds something for every object of the relation.
pub proof fn lemma_first_subject_some<'a>(rel: Seq<(Str<'a>, Str<'a>)>, j: int)
    requires
        0 <= j < rel.len(),
    ensures
        first_subject(rel, rel[j].1@) is Some,
    decreases rel.len(),
{
    if j < rel.len() - 1 {
        lemma_first_subject_some(rel.drop_last(), j);
    }
}

/// At every subject and every object of a relation of the pipeline a field of the
/// buffer starts.
pub proof fn lemma_stage_fields<'a>(
    input: Input<'a>,
    rels: Seq<Seq<(Str<'a>, Str<'a>)>>,
    k: int,
    j: int,
)
    requires
        0 <= k < rels.len(),
        forall|q: int| 0 <= q < rels.len() ==> held(input, #[trigger] rels[q]),
        0 <= j < stage(rels, k).len(),
    ensures
        stage(rels, k)[j].0.valid(),
        stage(rels, k)[j].1.valid(),
        input.has_field(stage(rels, k)[j].0),
        input.has_field(stage(rels, k)[j].1),
{
    vstd::slice::axiom_spec_len(input.data);
    assert(held(input, rels[k]));
    if k == 0 {
        let rel = rels[0];
        assert(input.is_field(rel[j].0));
        lemma_first_subject_some(rel, j);
        let f = first_subject(rel, rel[j].1@).unwrap();
        lemma_dictionary_sound(rel, rel[j].1@, f);
        let q = choose|q: int|
            0 <= q < rel.len() && (#[trigger] rel[q]).1@ == rel[j].1@ && rel[q].0.origin == f;
        assert(input.is_field(rel[q].0));
    } else {
        let own = k == rels.len() - 1;
        let rel = rels[k];
        let prev = rels[k - 1];
        let pairs = with_objects(rel, own);
        lemma_resolved_member(prev, pairs, j);
        let m = choose|m: int|
            0 <= m < pairs.len() && first_subject(prev, (#[trigger] pairs[m]).0@) == Some(
                resolved(prev, pairs)[j].0,
            ) && pairs[m].1 == resolved(prev, pairs)[j].1;
        let s = resolved(prev, pairs)[j].0;
        lemma_dictionary_sound(prev, pairs[m].0@, s);
        let q = choose|q: int|
            0 <= q < prev.len() && (#[trigger] prev[q]).1@ == pairs[m].0@ && prev[q].0.origin == s;
        assert(held(input, prev));
        assert(input.is_field(prev[q].0));
        assert(input.is_field(rel[m].1));
        if !own {
            lemma_first_subject_some(rel, m);
            let f = first_subject(rel, rel[m].1@).unwrap();
            lemma_dictionary_sound(rel, rel[m].1@, f);
            let w = choose|w: int|
                0 <= w < rel.len() && (#[trigger] rel[w]).1@ == rel[m].1@ && rel[w].0.origin == f;
            assert(input.is_field(rel[w].0));
        }
    }
}

} // verus!
