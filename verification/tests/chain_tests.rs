use sparql_join::args::Args;
use sparql_join::driver::{decode_rows, join};
use sparql_join::input::{Field, Input};

fn request(relations: usize, hash: bool, sort: bool, improved: bool) -> Args {
    Args {
        relations: (0..relations).map(|k| format!("r{}", k)).collect(),
        chunk_size: 0,
        thread_count: 4,
        debug: false,
        list_relations: false,
        show_table: Vec::new(),
        show_chunks: false,
        hash_join: hash,
        sort_merge_join: sort,
        print_result: true,
        print_count: 0,
        improved,
    }
}

const NODES: usize = 30;

/// The object that node `i` of relation `k` points to. Some nodes of the next
/// relation are pointed to twice, and some are not pointed to at all.
fn target(k: usize, i: usize) -> usize {
    (i * 7 + k * 3) % NODES / 2 * 2
}

/// A chain of relations: the pairs of relation `k` lead from the nodes of level
/// `k` to nodes of level `k + 1`.
fn chain(relations: usize) -> Vec<u8> {
    let mut data = Vec::new();
    for k in 0..relations {
        for i in 0..NODES {
            data.extend_from_slice(
                format!("n{}_{}\tr{}\tn{}_{} .\n", k, i, k, k + 1, target(k, i)).as_bytes(),
            );
        }
    }
    data
}

/// The first and the last node of every path through the chain.
fn paths(relations: usize) -> Vec<(String, String)> {
    let mut ends: Vec<(usize, usize)> = (0..NODES).map(|i| (i, target(0, i))).collect();
    for k in 1..relations {
        ends = ends.into_iter().map(|(first, at)| (first, target(k, at))).collect();
    }
    let mut named: Vec<(String, String)> = ends
        .into_iter()
        .map(|(first, last)| (format!("n0_{}", first), format!("n{}_{}", relations, last)))
        .collect();
    named.sort();
    named
}

fn sorted(table: &Vec<Vec<Field>>) -> Vec<Vec<usize>> {
    let mut rows: Vec<Vec<usize>> =
        table.iter().map(|row| row.iter().map(|field| field.offset()).collect()).collect();
    rows.sort();
    rows
}

fn check_chain(relations: usize) {
    let data = chain(relations);
    let input = Input::new(&data);
    let mut tables = Vec::new();
    for (hash, sort, improved) in
        [(true, false, false), (true, false, true), (false, true, false), (false, true, true)]
    {
        let joined = match join(&request(relations, hash, sort, improved), &input) {
            Ok(joined) => joined,
            Err(e) => panic!("{}", e.message()),
        };
        assert_eq!(joined.counts.len(), relations);
        assert_eq!(joined.counts[relations - 1], joined.table.len());
        for row in &joined.table {
            assert_eq!(row.len(), relations + 1);
            for field in row {
                assert!(field.is_valid());
                assert!(input.field_end(*field).is_ok());
            }
        }
        let texts = decode_rows(&input, &joined.table, joined.table.len());
        let mut ends: Vec<(String, String)> =
            texts.iter().map(|row| (row[0].clone(), row[relations].clone())).collect();
        ends.sort();
        assert_eq!(ends, paths(relations));
        tables.push(sorted(&joined.table));
    }
    assert_eq!(tables[0], tables[1]);
    assert_eq!(tables[0], tables[2]);
    assert_eq!(tables[0], tables[3]);
}

#[test]
fn a_chain_of_two_relations() {
    check_chain(2);
}

#[test]
fn a_chain_of_as_many_relations_as_there_are_buckets() {
    check_chain(8);
}

#[test]
fn a_chain_of_more_relations_than_there_are_buckets() {
    check_chain(9);
    check_chain(13);
}

#[test]
fn only_the_first_rows_are_decoded_where_asked() {
    let data = chain(2);
    let input = Input::new(&data);
    let joined = join(&request(2, true, false, false), &input).ok().unwrap();
    assert_eq!(joined.table.len(), NODES);
    assert_eq!(decode_rows(&input, &joined.table, 5).len(), 5);
    assert_eq!(decode_rows(&input, &joined.table, 0).len(), 0);
    assert_eq!(decode_rows(&input, &joined.table, NODES + 5).len(), NODES);
    let first = decode_rows(&input, &joined.table, 1);
    assert_eq!(first[0].len(), 3);
    assert!(first[0][0].starts_with("n0_"));
    assert!(first[0][2].starts_with("n2_"));
}

#[test]
fn two_runs_on_the_same_buffer_end_alike() {
    let data = chain(5);
    let input = Input::new(&data);
    for (hash, sort, improved) in
        [(true, false, false), (true, false, true), (false, true, false), (false, true, true)]
    {
        let mut once = request(5, hash, sort, improved);
        let mut again = request(5, hash, sort, improved);
        once.thread_count = 1;
        again.thread_count = 7;
        again.show_table = vec!["r0".to_string()];
        let first = join(&once, &input).ok().unwrap();
        let second = join(&again, &input).ok().unwrap();
        assert_eq!(sorted(&first.table), sorted(&second.table));
        assert_eq!(first.counts, second.counts);
    }
    let broken = Input::new(b"a\tr0\tb .\nc\tr1\n");
    let first = join(&request(2, true, false, false), &broken).err().unwrap();
    let second = join(&request(2, true, false, false), &broken).err().unwrap();
    assert_eq!(first.message(), second.message());
    let short = Input::new(b"a\tr0\tb .\n");
    let first = join(&request(3, false, true, false), &short).err().unwrap();
    let second = join(&request(3, false, true, true), &short).err().unwrap();
    assert_eq!(first.message(), "unknown relations: r1, and r2");
    assert_eq!(first.message(), second.message());
}
