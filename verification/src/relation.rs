//! Relations, and the catalogue that holds them by name.

use crate::input::{lines_from, scan_line, Field, Input, ParseError, Str};
use crate::strmap::StrMap;
use vstd::prelude::*;

verus! {

/// A relation in field form, in the order of the input.
pub type Relation = Vec<(Field, Field)>;

/// A relation in string form, in the order of the input.
pub type StrRelation<'a> = Vec<(Str<'a>, Str<'a>)>;

/// The catalogue: the relations in string form, each under its property.
pub type Universe<'a> = StrMap<'a, StrRelation<'a>>;

/// The pairs of subject and object of the triples whose property is `name`, in
/// the order of the triples.
pub open spec fn group<'a>(triples: Seq<(Str<'a>, Str<'a>, Str<'a>)>, name: Seq<u8>) -> Seq<
    (Str<'a>, Str<'a>),
>
    decreases triples.len(),
{
    if triples.len() == 0 {
        Seq::empty()
    } else {
        let before = group(triples.drop_last(), name);
        if triples.last().1@ == name {
            before.push((triples.last().0, triples.last().2))
        } else {
            before
        }
    }
}

/// One of `names` has the bytes `name`.
pub open spec fn listed(names: Seq<Str<'_>>, name: Seq<u8>) -> bool {
    exists|k: int| 0 <= k < names.len() && (#[trigger] names[k])@ == name
}

/// `t` is what the line between the two indices of `span` parses to.
pub open spec fn is_parse<'a>(input: Input<'a>, span: (int, int), t: (Str<'a>, Str<'a>,
    Str<'a>)) -> bool {
    &&& scan_line(input@.subrange(span.0, span.1)) == Ok::<(int, int, int), ParseError>(
        (t.0@.len() as int, t.1@.len() as int, t.2@.len() as int),
    )
    &&& t.0.origin.0 == span.0
    &&& t.1.origin.0 == span.0 + t.0@.len() + 1
    &&& t.2.origin.0 == span.0 + t.0@.len() + t.1@.len() + 2
    &&& input.holds_triple(t)
}

/// `triples` are what the lines of the buffer parse to, line by line.
pub open spec fn parses<'a>(input: Input<'a>, triples: Seq<(Str<'a>, Str<'a>, Str<'a>)>) -> bool {
    &&& triples.len() == lines_from(input@, 0, true).len()
    &&& forall|k: int|
        0 <= k < triples.len() ==> is_parse(
            input,
            lines_from(input@, 0, true)[k],
            #[trigger] triples[k],
        )
}

/// Line `j` of the buffer is the first that does not parse, and `e` is why.
pub open spec fn fails_at(input: Input<'_>, j: int, e: ParseError) -> bool {
    let spans = lines_from(input@, 0, true);
    &&& 0 <= j < spans.len()
    &&& scan_line(input@.subrange(spans[j].0, spans[j].1)) == Err::<(int, int, int), ParseError>(e)
    &&& forall|k: int|
        0 <= k < j ==> scan_line(
            input@.subrange((#[trigger] spans[k]).0, spans[k].1),
        ) is Ok
}

/// The catalogue holds, under each of `names` that is the property of a triple,
/// the pairs of the triples with that property, and nothing else.
pub open spec fn catalogued<'a>(
    universe: Universe<'a>,
    triples: Seq<(Str<'a>, Str<'a>, Str<'a>)>,
    names: Seq<Str<'_>>,
) -> bool {
    forall|name: Seq<u8>|
        match #[trigger] universe.find(name) {
            Some(rel) => listed(names, name) && rel@ == group(triples, name) && rel@.len() > 0,
            None => !listed(names, name) || group(triples, name).len() == 0,
        }
}

/// The buffer holds every subject and object of the catalogue.
pub open spec fn within<'a>(universe: Universe<'a>, input: Input<'a>) -> bool {
    forall|name: Seq<u8>, k: int|
        universe.find(name) is Some && 0 <= k < universe.find(name).unwrap()@.len()
            ==> input.is_field(
            (#[trigger] universe.find(name).unwrap()@[k]).0,
        ) && input.is_field(universe.find(name).unwrap()@[k].1)
}

/// The buffer holds every pair of a group of triples that it holds.
pub proof fn lemma_group_held<'a>(
    input: Input<'a>,
    triples: Seq<(Str<'a>, Str<'a>, Str<'a>)>,
    name: Seq<u8>,
)
    requires
        forall|k: int| 0 <= k < triples.len() ==> input.holds_triple(#[trigger] triples[k]),
    ensures
        forall|k: int|
            0 <= k < group(triples, name).len() ==> input.is_field(
                (#[trigger] group(triples, name)[k]).0,
            ) && input.is_field(group(triples, name)[k].1),
    decreases triples.len(),
{
    if triples.len() > 0 {
        let d = triples.drop_last();
        assert forall|k: int| 0 <= k < d.len() implies input.holds_triple(#[trigger] d[k]) by {
            assert(d[k] == triples[k]);
        }
        lemma_group_held(input, d, name);
        assert(input.holds_triple(triples[triples.len() - 1]));
        let before = group(d, name);
        assert forall|k: int| 0 <= k < group(triples, name).len() implies input.is_field(
            (#[trigger] group(triples, name)[k]).0,
        ) && input.is_field(group(triples, name)[k].1) by {
            if k < before.len() {
                assert(group(triples, name)[k] == before[k]);
            }
        }
    }
}

/// Reads the buffer line by line and files the pairs of every triple whose
/// property is one of `names` under that property.
///
/// Every line is parsed, wanted or not, and the first line that does not parse
/// ends the reading.
#[verifier::rlimit(30)]
pub fn build_universe<'a>(input: &Input<'a>, names: &Vec<Str<'_>>) -> (built: Result<
    Universe<'a>,
    ParseError,
>)
    ensures
        match built {
            Ok(universe) => within(universe, *input) && exists|
                triples: Seq<(Str<'a>, Str<'a>, Str<'a>)>,
            |
                parses(*input, triples) && catalogued(universe, triples, names@),
            Err(e) => exists|j: int| fails_at(*input, j, e),
        },
{
    let mut wanted: StrMap<'_, bool> = StrMap::new();
    let mut w: usize = 0;
    while w < names.len()
        invariant
            w <= names@.len(),
            forall|name: Seq<u8>|
                (#[trigger] wanted.find(name)) is Some <==> listed(names@.take(w as int), name),
        decreases names@.len() - w,
    {
        let ghost before = wanted;
        let _ = wanted.get_or_insert(names[w], true);
        proof {
            let now = names@.take(w + 1);
            let was = names@.take(w as int);
            assert forall|name: Seq<u8>| (#[trigger] wanted.find(name)) is Some <==> listed(
                now,
                name,
            ) by {
                if listed(now, name) {
                    let k = choose|k: int| 0 <= k < now.len() && (#[trigger] now[k])@ == name;
                    if k < w {
                        assert(was[k]@ == name);
                    }
                }
                if listed(was, name) {
                    let k = choose|k: int| 0 <= k < was.len() && (#[trigger] was[k])@ == name;
                    assert(now[k]@ == name);
                }
                if name == names@[w as int]@ {
                    assert(now[w as int]@ == name);
                }
                assert(before.find(name) is Some <==> listed(was, name));
            }
        }
        w += 1;
    }
    assert(names@.take(w as int) =~= names@);
    let ghost spans = lines_from(input@, 0, true);
    let ghost mut triples: Seq<(Str<'a>, Str<'a>, Str<'a>)> = Seq::empty();
    let mut universe: Universe<'a> = StrMap::new();
    let mut lines = input.iter_lines();
    assert(lines.remaining() == spans);
    assert(spans.skip(0) =~= spans);
    loop
        invariant
            spans == lines_from(input@, 0, true),
            lines.wf(),
            lines.chunk == input.data,
            lines.base == 0,
            triples.len() <= spans.len(),
            lines.remaining() == spans.skip(triples.len() as int),
            forall|k: int| 0 <= k < triples.len()
                ==> is_parse(*input, spans[k], #[trigger] triples[k]),
            catalogued(universe, triples, names@),
            forall|name: Seq<u8>| (#[trigger] wanted.find(name)) is Some <==> listed(names@, name),
        ensures
            triples.len() == spans.len(),
        decreases spans.len() - triples.len(),
    {
        let ghost at = triples.len() as int;
        let ghost before = universe;
        match lines.next() {
            None => {
                break ;
            },
            Some(line) => {
                let ghost span = spans[at];
                assert(spans.skip(at)[0] == span);
                assert(spans.skip(at).skip(1) =~= spans.skip(at + 1));
                assert(line.data@ == input@.subrange(span.0, span.1));
                match line.parse() {
                    Err(e) => {
                        proof {
                            assert forall|k: int| 0 <= k < at implies scan_line(
                                input@.subrange((#[trigger] spans[k]).0, spans[k].1),
                            ) is Ok by {
                                assert(is_parse(*input, spans[k], triples[k]));
                            }
                            assert(fails_at(*input, at, e));
                        }
                        return Err(e);
                    },
                    Ok(t) => {
                        proof {
                            input.lemma_holds_parsed(line, t);
                            assert(is_parse(*input, span, t));
                        }
                        let keep = match wanted.get(t.1) {
                            Some(_) => true,
                            None => false,
                        };
                        if keep {
                            universe.push_to(t.1, (t.0, t.2));
                        }
                        proof {
                            let more = triples.push(t);
                            assert(more.drop_last() =~= triples);
                            assert forall|name: Seq<u8>|
                                match #[trigger] universe.find(name) {
                                    Some(rel) => listed(names@, name) && rel@ == group(more, name)
                                        && rel@.len() > 0,
                                    None => !listed(names@, name) || group(more, name).len() == 0,
                                } by {
                                let was = before.find(name);
                                assert(match was {
                                    Some(rel) => listed(names@, name) && rel@ == group(
                                        triples,
                                        name,
                                    ) && rel@.len() > 0,
                                    None => !listed(names@, name) || group(triples, name).len()
                                        == 0,
                                });
                                assert(wanted.find(t.1@) is Some <==> listed(names@, t.1@));
                                if name == t.1@ && keep {
                                    if was is None {
                                        assert(group(triples, name) =~= Seq::empty());
                                        assert(Seq::<(Str<'a>, Str<'a>)>::empty().push((t.0, t.2))
                                            =~= seq![(t.0, t.2)]);
                                    }
                                }
                            }
                            triples = more;
                        }
                    },
                }
            },
        }
    }
    proof {
        assert(parses(*input, triples));
        assert forall|name: Seq<u8>, k: int|
            universe.find(name) is Some && 0 <= k < universe.find(name).unwrap()@.len()
                implies input.is_field(
            (#[trigger] universe.find(name).unwrap()@[k]).0,
        ) && input.is_field(universe.find(name).unwrap()@[k].1) by {
            assert(universe.find(name).unwrap()@ == group(triples, name));
            assert forall|q: int| 0 <= q < triples.len() implies input.holds_triple(
                #[trigger] triples[q],
            ) by {
                assert(is_parse(*input, spans[q], triples[q]));
            }
            lemma_group_held(*input, triples, name);
        }
    }
    Ok(universe)
}


/// The properties of the triples.
pub open spec fn properties<'a>(triples: Seq<(Str<'a>, Str<'a>, Str<'a>)>) -> Seq<Seq<u8>> {
    triples.map_values(|t: (Str<'a>, Str<'a>, Str<'a>)| t.1@)
}

/// The runs of bytes, each once, in the order in which they first appear.
pub open spec fn distinct(all: Seq<Seq<u8>>) -> Seq<Seq<u8>>
    decreases all.len(),
{
    if all.len() == 0 {
        Seq::empty()
    } else {
        let before = distinct(all.drop_last());
        if before.contains(all.last()) {
            before
        } else {
            before.push(all.last())
        }
    }
}

/// The bytes of each `Str`.
pub open spec fn bytes_of<'a>(strs: Seq<Str<'a>>) -> Seq<Seq<u8>> {
    strs.map_values(|s: Str<'a>| s@)
}

/// Reads the buffer line by line and lists the properties of its triples, each
/// once, in the order in which they first appear.
#[verifier::rlimit(30)]
pub fn list_properties<'a>(input: &Input<'a>) -> (listed: Result<Vec<Str<'a>>, ParseError>)
    ensures
        match listed {
            Ok(props) => exists|triples: Seq<(Str<'a>, Str<'a>, Str<'a>)>|
                parses(*input, triples) && bytes_of(props@) == distinct(properties(triples)),
            Err(e) => exists|j: int| fails_at(*input, j, e),
        },
{
    let ghost spans = lines_from(input@, 0, true);
    let ghost mut triples: Seq<(Str<'a>, Str<'a>, Str<'a>)> = Seq::empty();
    let mut seen: StrMap<'a, bool> = StrMap::new();
    let mut props: Vec<Str<'a>> = Vec::new();
    let mut lines = input.iter_lines();
    assert(lines.remaining() == spans);
    assert(spans.skip(0) =~= spans);
    assert(bytes_of(props@) =~= distinct(properties(triples)));
    loop
        invariant
            spans == lines_from(input@, 0, true),
            lines.wf(),
            lines.chunk == input.data,
            lines.base == 0,
            triples.len() <= spans.len(),
            lines.remaining() == spans.skip(triples.len() as int),
            forall|k: int| 0 <= k < triples.len()
                ==> is_parse(*input, spans[k], #[trigger] triples[k]),
            bytes_of(props@) == distinct(properties(triples)),
            forall|key: Seq<u8>|
                (#[trigger] seen.find(key)) is Some
                    <==> distinct(properties(triples)).contains(key),
        ensures
            triples.len() == spans.len(),
        decreases spans.len() - triples.len(),
    {
        let ghost at = triples.len() as int;
        let ghost before = seen;
        match lines.next() {
            None => {
                break ;
            },
            Some(line) => {
                let ghost span = spans[at];
                assert(spans.skip(at)[0] == span);
                assert(spans.skip(at).skip(1) =~= spans.skip(at + 1));
                assert(line.data@ == input@.subrange(span.0, span.1));
                match line.parse() {
                    Err(e) => {
                        proof {
                            assert forall|k: int| 0 <= k < at implies scan_line(
                                input@.subrange((#[trigger] spans[k]).0, spans[k].1),
                            ) is Ok by {
                                assert(is_parse(*input, spans[k], triples[k]));
                            }
                            assert(fails_at(*input, at, e));
                        }
                        return Err(e);
                    },
                    Ok(t) => {
                        proof {
                            input.lemma_holds_parsed(line, t);
                            assert(is_parse(*input, span, t));
                        }
                        let known = match seen.get(t.1) {
                            Some(_) => true,
                            None => false,
                        };
                        let ghost listed = bytes_of(props@);
                        if !known {
                            let _ = seen.get_or_insert(t.1, true);
                            props.push(t.1);
                        }
                        proof {
                            let more = triples.push(t);
                            assert(properties(more).drop_last() =~= properties(triples));
                            assert(properties(more).last() == t.1@);
                            if !known {
                                assert(bytes_of(props@) =~= listed.push(t.1@));
                            }
                            let now = distinct(properties(more));
                            let was = distinct(properties(triples));
                            assert forall|key: Seq<u8>|
                                (#[trigger] seen.find(key)) is Some <==> now.contains(key) by {
                                assert(before.find(key) is Some <==> was.contains(key));
                                if !known {
                                    if was.contains(key) {
                                        let w = choose|w: int| 0 <= w < was.len() && was[w] == key;
                                        assert(now[w] == key);
                                    }
                                    if now.contains(key) && key != t.1@ {
                                        let w = choose|w: int| 0 <= w < now.len() && now[w] == key;
                                        assert(was[w] == key);
                                    }
                                    if key == t.1@ {
                                        assert(now[now.len() - 1] == key);
                                    }
                                }
                            }
                            triples = more;
                        }
                    },
                }
            },
        }
    }
    proof {
        assert(parses(*input, triples));
    }
    Ok(props)
}

} // verus!
