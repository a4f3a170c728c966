use std::collections::HashMap;

use sparql_join::args::Args;
use sparql_join::driver::{decode_rows, join, JoinError, Joined};
use sparql_join::input::{Field, Input, Str};
use sparql_join::pipeline::{map_objects, PipelineError};
use sparql_join::relation::build_universe;

fn request(relations: &[&str], hash: bool, sort: bool, improved: bool) -> Args {
    Args {
        relations: relations.iter().map(|name| name.to_string()).collect(),
        chunk_size: 0,
        thread_count: 1,
        debug: false,
        list_relations: false,
        show_table: Vec::new(),
        show_chunks: false,
        hash_join: hash,
        sort_merge_join: sort,
        print_result: false,
        print_count: 10,
        improved,
    }
}

/// The text of the field that starts at `field`.
fn decode(input: &Input, field: Field) -> String {
    assert!(input.field_end(field).is_ok());
    input.extract_str(field).decode()
}

/// For each relation but the last, the object that each field of its dictionary
/// stands for.
fn objects(input: &Input, relations: &[&str]) -> Vec<HashMap<usize, String>> {
    let names: Vec<Str> = relations.iter().map(|name| Str::new(name)).collect();
    let universe = build_universe(input, &names).ok().unwrap();
    relations[..relations.len() - 1]
        .iter()
        .map(|name| {
            let relation = universe.get(Str::new(name)).unwrap();
            let (with_fields, _) = map_objects(input, relation);
            relation
                .iter()
                .zip(with_fields)
                .map(|(pair, (_, field))| (field.offset(), pair.1.decode()))
                .collect()
        })
        .collect()
}

/// The rows of the result as the subjects and objects that their fields stand
/// for, in sorted order: the subject of the first relation, and the object of
/// each relation.
fn rows(input: &Input, relations: &[&str], joined: &Joined) -> Vec<Vec<String>> {
    let objects = objects(input, relations);
    let last = relations.len();
    let mut rows: Vec<Vec<String>> = joined
        .table
        .iter()
        .map(|row| {
            assert_eq!(row.len(), last + 1);
            (0..=last)
                .map(|column| {
                    if column == 0 || column == last {
                        decode(input, row[column])
                    } else {
                        objects[column - 1][&row[column].offset()].clone()
                    }
                })
                .collect()
        })
        .collect();
    rows.sort();
    rows
}

/// The rows of the result as the text of their fields, in sorted order.
fn texts(input: &Input, joined: &Joined) -> Vec<Vec<String>> {
    let mut rows = decode_rows(input, &joined.table, joined.table.len());
    rows.sort();
    rows
}

fn text(cells: &[&[&str]]) -> Vec<Vec<String>> {
    cells.iter().map(|row| row.iter().map(|cell| cell.to_string()).collect()).collect()
}

fn all_engines() -> Vec<(bool, bool, bool)> {
    vec![(true, false, false), (true, false, true), (false, true, false), (false, true, true)]
}

fn joined(data: &[u8], relations: &[&str], engine: (bool, bool, bool)) -> Vec<Vec<String>> {
    let input = Input::new(data);
    let args = request(relations, engine.0, engine.1, engine.2);
    match join(&args, &input) {
        Ok(done) => rows(&input, relations, &done),
        Err(e) => panic!("join failed: {}", e.message()),
    }
}

// Every object is followed by a space: a field that is not quoted ends before a
// tab or a space.

#[test]
fn single_join_of_two_relations() {
    let data = b"a\tp\tx \nb\tp\ty \nx\tq\t1 \ny\tq\t2 \nz\tq\t3 \n";
    for engine in all_engines() {
        assert_eq!(
            joined(data, &["p", "q"], engine),
            text(&[&["a", "x", "1"], &["b", "y", "2"]])
        );
    }
}

#[test]
fn duplicate_fan_out() {
    let data = b"a\tp\tx \nx\tq\t1 \nx\tq\t2 \n";
    for engine in all_engines() {
        assert_eq!(
            joined(data, &["p", "q"], engine),
            text(&[&["a", "x", "1"], &["a", "x", "2"]])
        );
    }
}

#[test]
fn chain_of_three_drops_what_finds_no_successor() {
    let data = b"a\tp\tx \nb\tp\ty \nx\tq\tm \ny\tq\tn \nm\tr\tZ \n";
    for engine in all_engines() {
        assert_eq!(joined(data, &["p", "q", "r"], engine), text(&[&["a", "x", "m", "Z"]]));
    }
}

#[test]
fn the_field_of_an_object_is_the_subject_it_was_first_seen_with() {
    let data = b"a\tp\tx \nb\tp\ty \nc\tp\tx \nx\tq\t1 \ny\tq\t2 \n";
    let input = Input::new(data);
    for engine in all_engines() {
        let args = request(&["p", "q"], engine.0, engine.1, engine.2);
        let done = join(&args, &input).ok().unwrap();
        // The middle column holds the field that the dictionary gives for the
        // object: `x` was first seen with `a`, and `y` with `b`.
        assert_eq!(
            texts(&input, &done),
            text(&[&["a", "a", "1"], &["b", "b", "2"], &["c", "a", "1"]])
        );
        assert_eq!(
            rows(&input, &["p", "q"], &done),
            text(&[&["a", "x", "1"], &["b", "y", "2"], &["c", "x", "1"]])
        );
    }
}

#[test]
fn unknown_relations_are_reported_together() {
    let data = b"a\tp\tx \n";
    let input = Input::new(data);
    for engine in all_engines() {
        let args = request(&["p", "r", "s"], engine.0, engine.1, engine.2);
        match join(&args, &input) {
            Err(JoinError::Pipeline(PipelineError::UnknownRelations(names))) => {
                assert_eq!(names, vec!["r".to_string(), "s".to_string()]);
                let error = JoinError::Pipeline(PipelineError::UnknownRelations(names));
                assert_eq!(error.message(), "unknown relations: r, and s");
            }
            _ => panic!("the unknown relations went unnoticed"),
        }
    }
}

#[test]
fn one_unknown_relation_is_reported_like_several() {
    let data = b"a\tp\tx \n";
    let input = Input::new(data);
    let args = request(&["p", "r"], true, false, false);
    match join(&args, &input) {
        Err(e) => assert_eq!(e.message(), "unknown relations: r"),
        Ok(_) => panic!("the unknown relation went unnoticed"),
    }
}

#[test]
fn three_unknown_relations_are_listed_with_commas() {
    let error = PipelineError::UnknownRelations(vec![
        "r".to_string(),
        "s".to_string(),
        "t".to_string(),
    ]);
    assert_eq!(error.message(), "unknown relations: r, s, and t");
}

#[test]
fn fewer_than_two_relations_are_no_join() {
    let data = b"a\tp\tx \n";
    let input = Input::new(data);
    for engine in all_engines() {
        let args = request(&["p"], engine.0, engine.1, engine.2);
        match join(&args, &input) {
            Err(JoinError::Pipeline(PipelineError::NoJoin)) => {
                let error = JoinError::Pipeline(PipelineError::NoJoin);
                assert_eq!(error.message(), "no join to be performed");
            }
            _ => panic!("a single relation was joined"),
        }
    }
}

#[test]
fn a_mode_must_be_selected() {
    let data = b"a\tp\tx \nx\tq\t1 \n";
    let input = Input::new(data);
    let args = request(&["p", "q"], false, false, false);
    match join(&args, &input) {
        Err(JoinError::NoMode) => {
            assert_eq!(JoinError::NoMode.message(), "Neither --hash nor --sort specified.")
        }
        _ => panic!("a join ran without a mode"),
    }
}

#[test]
fn only_one_mode_can_be_selected() {
    let data = b"a\tp\tx \nx\tq\t1 \n";
    let input = Input::new(data);
    let args = request(&["p", "q"], true, true, false);
    match join(&args, &input) {
        Err(JoinError::BothModes) => assert_eq!(
            JoinError::BothModes.message(),
            "Modes --hash and --sort are mutually exclusive."
        ),
        _ => panic!("a join ran with two modes"),
    }
}
