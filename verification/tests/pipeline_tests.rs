use sparql_join::args::Args;
use sparql_join::driver::{check_ranges, join, join_universe, wanted_names, JoinError};
use sparql_join::input::{Field, Input, ParseError, Str};
use sparql_join::pipeline::{map_objects, Pipeline, PipelineError};
use sparql_join::relation::{build_universe, list_properties};
use sparql_join::strmap::StrMap;
use sparql_join::validation::Validation;

fn request(relations: &[&str], show: &[&str], hash: bool, sort: bool, improved: bool) -> Args {
    Args {
        relations: relations.iter().map(|name| name.to_string()).collect(),
        chunk_size: 0,
        thread_count: 0,
        debug: false,
        list_relations: false,
        show_table: show.iter().map(|name| name.to_string()).collect(),
        show_chunks: false,
        hash_join: hash,
        sort_merge_join: sort,
        print_result: true,
        print_count: 10,
        improved,
    }
}

const DATA: &[u8] =
    b"a\tp\tx .\nb\tp\ty .\nc\tp\tx .\nx\tq\tm .\ny\tq\tn .\nw\tq\tn .\nm\tr\tZ .\nk\ts\t1 .\n";

fn offsets(relation: &[(Field, Field)]) -> Vec<(usize, usize)> {
    relation.iter().map(|p| (p.0.offset(), p.1.offset())).collect()
}

#[test]
fn the_catalogue_holds_the_relations_that_are_named() {
    let input = Input::new(DATA);
    let names = vec![Str::new("p"), Str::new("r"), Str::new("nothing")];
    let universe = build_universe(&input, &names).ok().unwrap();
    let p = universe.get(Str::new("p")).unwrap();
    let pairs: Vec<(&[u8], &[u8])> = p.iter().map(|pair| (pair.0.bytes, pair.1.bytes)).collect();
    assert_eq!(pairs, vec![(&b"a"[..], &b"x"[..]), (b"b", b"y"), (b"c", b"x")]);
    assert_eq!(p[1].0.origin, Field::from_offset(8));
    assert_eq!(p[1].1.origin, Field::from_offset(12));
    assert_eq!(universe.get(Str::new("r")).unwrap().len(), 1);
    assert!(universe.get(Str::new("q")).is_none());
    assert!(universe.get(Str::new("nothing")).is_none());
}

#[test]
fn the_first_line_that_does_not_parse_ends_the_reading() {
    let names = vec![Str::new("p")];
    let input = Input::new(b"a\tp\tx .\nb\tp\t\"y .\nc\tp\n");
    assert_eq!(build_universe(&input, &names).err(), Some(ParseError::UnterminatedQuote));
    let input = Input::new(b"a\tp\tx .\nb\tq\n");
    assert_eq!(build_universe(&input, &names).err(), Some(ParseError::MissingTerminator));
    let args = request(&["p", "q"], &[], true, false, false);
    match join(&args, &input) {
        Err(JoinError::Parse(ParseError::MissingTerminator)) => assert_eq!(
            JoinError::Parse(ParseError::MissingTerminator).message(),
            "missing terminating TAB or SPACE"
        ),
        _ => panic!("the malformed line went unnoticed"),
    }
    assert_eq!(
        JoinError::Parse(ParseError::UnterminatedQuote).message(),
        "missing closing DQUOTE"
    );
}

#[test]
fn the_names_wanted_are_those_to_join_and_those_to_show() {
    let args = request(&["p", "q"], &["s"], true, false, false);
    let names: Vec<Vec<u8>> = wanted_names(&args).iter().map(|s| s.bytes.to_vec()).collect();
    assert_eq!(names, vec![b"p".to_vec(), b"q".to_vec(), b"s".to_vec()]);
}

#[test]
fn the_dictionary_holds_the_first_subject_of_each_object() {
    let input = Input::new(DATA);
    let universe = build_universe(&input, &vec![Str::new("p")]).ok().unwrap();
    let p = universe.get(Str::new("p")).unwrap();
    let (with_fields, dictionary) = map_objects(&input, p);
    // `x` was first seen with `a`, which stands at offset 0, and `y` with `b`.
    assert_eq!(dictionary.get(Str::new("x")), Some(&Field::from_offset(0)));
    assert_eq!(dictionary.get(Str::new("y")), Some(&Field::from_offset(8)));
    assert_eq!(dictionary.get(Str::new("a")), None);
    let fields: Vec<usize> = with_fields.iter().map(|pair| pair.1.offset()).collect();
    assert_eq!(fields, vec![0, 8, 0]);
    for (_, field) in with_fields {
        assert!(p.iter().any(|pair| input.extract_field(pair.0) == field));
    }
}

#[test]
fn resolving_keeps_the_pairs_that_the_dictionary_knows() {
    let mut dictionary: StrMap<Field> = StrMap::new();
    dictionary.get_or_insert(Str::new("x"), Field::from_offset(40));
    dictionary.get_or_insert(Str::new("y"), Field::from_offset(30));
    dictionary.get_or_insert(Str::new("x"), Field::from_offset(99));
    let pairs = vec![
        (Str::new("y"), Field::from_offset(1)),
        (Str::new("z"), Field::from_offset(2)),
        (Str::new("x"), Field::from_offset(3)),
        (Str::new("y"), Field::from_offset(4)),
    ];
    let mut relation = vec![(Field::from_offset(7), Field::from_offset(7))];
    let mut range = (Field::invalid(), Field::invalid());
    Pipeline::resolve(&mut relation, &mut range, &dictionary, &pairs);
    assert_eq!(offsets(&relation), vec![(7, 7), (30, 1), (40, 3), (30, 4)]);
    assert_eq!(range, (Field::from_offset(30), Field::from_offset(40)));
    let mut none = Vec::new();
    let mut untouched = (Field::from_offset(5), Field::from_offset(6));
    Pipeline::resolve(&mut none, &mut untouched, &dictionary, &vec![(Str::new("z"), Field::from_offset(2))]);
    assert!(none.is_empty());
    assert_eq!(untouched, (Field::from_offset(5), Field::from_offset(6)));
}

#[test]
fn the_pipeline_resolves_each_relation_by_the_one_before() {
    let input = Input::new(DATA);
    let names = vec![Str::new("p"), Str::new("q"), Str::new("r")];
    let universe = build_universe(&input, &names).ok().unwrap();
    let relation_names = vec!["p".to_string(), "q".to_string(), "r".to_string()];
    let pipeline = match Pipeline::build(&input, &universe, &relation_names) {
        Ok(pipeline) => pipeline,
        Err(e) => panic!("{}", e.message()),
    };
    assert_eq!(pipeline.relations.len(), 3);
    // a, b and c stand at 0, 8 and 16; x, y and w of q at 24, 32 and 40; m of r at 48.
    assert_eq!(offsets(&pipeline.relations[0]), vec![(0, 0), (8, 8), (16, 0)]);
    assert_eq!(offsets(&pipeline.relations[1]), vec![(0, 24), (8, 32)]);
    assert_eq!(offsets(&pipeline.relations[2]), vec![(24, 52)]);
    assert_eq!(pipeline.ranges[0], (Field::invalid(), Field::invalid()));
    assert_eq!(pipeline.ranges[1], (Field::from_offset(0), Field::from_offset(8)));
    assert_eq!(pipeline.ranges[2], (Field::from_offset(24), Field::from_offset(24)));
    for (k, relation) in pipeline.relations.iter().enumerate().skip(1) {
        for pair in relation {
            assert!(pipeline.ranges[k].0 <= pair.0 && pair.0 <= pipeline.ranges[k].1);
        }
    }
}

#[test]
fn two_relations_make_a_pipeline_of_two() {
    let input = Input::new(DATA);
    let universe = build_universe(&input, &vec![Str::new("q"), Str::new("r")]).ok().unwrap();
    let pipeline =
        Pipeline::build(&input, &universe, &vec!["q".to_string(), "r".to_string()]).ok().unwrap();
    assert_eq!(offsets(&pipeline.relations[0]), vec![(24, 24), (32, 32), (40, 32)]);
    assert_eq!(offsets(&pipeline.relations[1]), vec![(24, 52)]);
}

#[test]
fn unknown_names_come_before_too_few_names() {
    let input = Input::new(DATA);
    let universe = build_universe(&input, &vec![Str::new("p")]).ok().unwrap();
    match Pipeline::build(&input, &universe, &vec!["nothing".to_string()]) {
        Err(PipelineError::UnknownRelations(names)) => assert_eq!(names, vec!["nothing".to_string()]),
        _ => panic!("the unknown relation went unnoticed"),
    }
    assert!(matches!(
        Pipeline::build(&input, &universe, &vec!["p".to_string()]),
        Err(PipelineError::NoJoin)
    ));
    assert!(matches!(Pipeline::build(&input, &universe, &Vec::new()), Err(PipelineError::NoJoin)));
    assert!(matches!(
        Pipeline::build(&input, &universe, &vec!["p".to_string(), "p".to_string()]),
        Ok(_)
    ));
}

#[test]
fn the_tables_to_show_are_in_the_catalogue() {
    let input = Input::new(DATA);
    let args = request(&["p", "q"], &["s", "t"], false, true, false);
    let universe = build_universe(&input, &wanted_names(&args)).ok().unwrap();
    assert_eq!(universe.get(Str::new("s")).unwrap().len(), 1);
    assert!(universe.get(Str::new("t")).is_none());
    let joined = join_universe(&args, &input, &universe).ok().unwrap();
    assert_eq!(joined.counts, vec![3, 3]);
    assert_eq!(joined.table.len(), 3);
}

#[test]
fn the_number_of_rows_is_counted_after_each_step() {
    let input = Input::new(DATA);
    for (hash, sort, improved) in
        [(true, false, false), (true, false, true), (false, true, false), (false, true, true)]
    {
        let args = request(&["p", "q", "r"], &[], hash, sort, improved);
        let joined = join(&args, &input).ok().unwrap();
        assert_eq!(joined.counts, vec![3, 3, 2]);
        let mut rows: Vec<Vec<usize>> =
            joined.table.iter().map(|row| row.iter().map(|f| f.offset()).collect()).collect();
        rows.sort();
        assert_eq!(rows, vec![vec![0, 0, 24, 52], vec![16, 0, 24, 52]]);
    }
}

#[test]
fn an_empty_relation_has_no_range_to_cut() {
    let input = Input::new(DATA);
    // No subject of s is an object of r: s is left without pairs.
    let plain = request(&["q", "r", "s"], &[], true, false, false);
    let joined = join(&plain, &input).ok().unwrap();
    assert!(joined.table.is_empty());
    assert_eq!(joined.counts, vec![3, 1, 0]);
    let sorted = request(&["q", "r", "s"], &[], false, true, true);
    assert!(join(&sorted, &input).ok().unwrap().table.is_empty());
    let improved = request(&["q", "r", "s"], &[], true, false, true);
    match join(&improved, &input) {
        Err(JoinError::InvalidRange) => {
            assert_eq!(JoinError::InvalidRange.message(), "invalid range")
        }
        _ => panic!("an empty range was cut into buckets"),
    }
    let none = (Field::invalid(), Field::invalid());
    let some = (Field::from_offset(1), Field::from_offset(2));
    assert!(check_ranges(&vec![none, some, some]));
    assert!(!check_ranges(&vec![none, some, none]));
    assert!(!check_ranges(&vec![none, (Field::from_offset(3), Field::from_offset(2))]));
    assert!(check_ranges(&vec![none]));
    assert!(check_ranges(&Vec::new()));
}

#[test]
fn the_accumulator_turns_bad_with_the_first_bad_item() {
    let good: Validation<Vec<u8>, Vec<char>> =
        Validation::from_iter(vec![Validation::Valid(1), Validation::Valid(2)]);
    assert!(matches!(good, Validation::Valid(ref items) if items == &vec![1, 2]));
    let bad: Validation<Vec<u8>, Vec<char>> = Validation::from_iter(vec![
        Validation::Valid(1),
        Validation::Invalid('a'),
        Validation::Valid(2),
        Validation::Invalid('b'),
    ]);
    assert!(matches!(bad, Validation::Invalid(ref items) if items == &vec!['a', 'b']));
    let mut more: Validation<Vec<u8>, Vec<char>> = Validation::Valid(vec![9]);
    more.extend(vec![Validation::Valid(8)]);
    assert!(matches!(more, Validation::Valid(ref items) if items == &vec![9, 8]));
    more.extend(vec![Validation::Invalid('x'), Validation::Valid(7)]);
    assert!(matches!(more, Validation::Invalid(ref items) if items == &vec!['x']));
    more.extend(vec![Validation::Valid(6), Validation::Invalid('y')]);
    assert!(matches!(more, Validation::Invalid(ref items) if items == &vec!['x', 'y']));
    let start: Validation<Vec<u8>, Vec<char>> = Validation::default();
    assert!(matches!(start, Validation::Valid(ref items) if items.is_empty()));
    assert_eq!(Validation::<u8, char>::Invalid('e').invalid(), Some('e'));
    assert_eq!(Validation::<u8, char>::Valid(1).invalid(), None);
}

#[test]
fn the_map_holds_values_by_bytes() {
    let mut map: StrMap<Vec<u8>> = StrMap::new();
    assert!(map.get(Str::new("a")).is_none());
    map.push_to(Str::new("a"), 1);
    map.push_to(Str::new("b"), 2);
    map.push_to(Str::new("a"), 3);
    assert_eq!(map.get(Str::new("a")), Some(&vec![1, 3]));
    assert_eq!(map.get(Str::new("b")), Some(&vec![2]));
    assert!(map.get(Str::new("")).is_none());
    let mut fields: StrMap<usize> = StrMap::new();
    for i in 0..2000usize {
        let name: &'static str = Box::leak(format!("name{}", i % 1000).into_boxed_str());
        assert_eq!(fields.get_or_insert(Str::new(name), i), i % 1000);
    }
    assert_eq!(fields.get(Str::new("name999")), Some(&999));
    assert!(fields.get(Str::new("name1000")).is_none());
}

#[test]
fn the_properties_are_listed_once_each() {
    let input = Input::new(DATA);
    let props: Vec<Vec<u8>> =
        list_properties(&input).ok().unwrap().iter().map(|prop| prop.bytes.to_vec()).collect();
    assert_eq!(props, vec![b"p".to_vec(), b"q".to_vec(), b"r".to_vec(), b"s".to_vec()]);
    let mixed = Input::new(b"a\tq\tx .\nb\tp\ty .\nc\tq\tx .\nd\t\"p\"\tz .\n");
    let props: Vec<Vec<u8>> =
        list_properties(&mixed).ok().unwrap().iter().map(|prop| prop.bytes.to_vec()).collect();
    assert_eq!(props, vec![b"q".to_vec(), b"p".to_vec(), b"\"p\"".to_vec()]);
    assert!(list_properties(&Input::new(b"")).ok().unwrap().is_empty());
    assert_eq!(
        list_properties(&Input::new(b"a\tp\tx .\nb\n")).err(),
        Some(ParseError::MissingTerminator)
    );
}
