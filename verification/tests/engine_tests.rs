use sparql_join::hash::{bucket_limit, owning_bucket, Impl as HashJoin};
use sparql_join::input::Field;
use sparql_join::join::{seed, JoinAlgo, Settings};
use sparql_join::sort_merge::{lower_bound, merge_chunk, remove_rows, Impl as SortMergeJoin};

fn f(offset: usize) -> Field {
    Field::from_offset(offset)
}

fn pairs(raw: &[(usize, usize)]) -> Vec<(Field, Field)> {
    raw.iter().map(|&(s, o)| (f(s), f(o))).collect()
}

fn sorted(table: &Vec<Vec<Field>>) -> Vec<Vec<usize>> {
    let mut rows: Vec<Vec<usize>> =
        table.iter().map(|row| row.iter().map(|field| field.offset()).collect()).collect();
    rows.sort();
    rows
}

const NONE: usize = usize::MAX;

/// The rows of a join step, computed pair by pair.
fn expected_step(table: &[Vec<usize>], relation: &[(usize, usize)], index: usize, reach: usize) -> Vec<Vec<usize>> {
    let mut rows = Vec::new();
    for row in table {
        for &(s, o) in relation {
            if row[index] == s && s < reach {
                let mut extended = row.clone();
                extended[index + 1] = o;
                rows.push(extended);
            }
        }
    }
    rows.sort();
    rows
}

fn engines() -> Vec<(&'static str, Box<dyn FnMut(usize, usize, Vec<(Field, Field)>, (Field, Field)) -> Vec<Vec<usize>>>)> {
    let mut engines: Vec<(&'static str, Box<dyn FnMut(usize, usize, Vec<(Field, Field)>, (Field, Field)) -> Vec<Vec<usize>>>)> = Vec::new();
    for improved in [false, true] {
        let mut hash = HashJoin::new(improved);
        engines.push((
            if improved { "improved hash" } else { "hash" },
            Box::new(move |count, index, relation, range| {
                hash.join(&Settings { join_count: count }, index, relation, range);
                sorted(hash.results())
            }),
        ));
        let mut sort_merge = SortMergeJoin::new(improved);
        engines.push((
            if improved { "improved sort-merge" } else { "sort-merge" },
            Box::new(move |count, index, relation, range| {
                sort_merge.join(&Settings { join_count: count }, index, relation, range);
                sorted(sort_merge.results())
            }),
        ));
    }
    engines
}

fn range_of(relation: &[(usize, usize)]) -> (Field, Field) {
    let lo = relation.iter().map(|p| p.0).min().unwrap_or(NONE);
    let hi = relation.iter().map(|p| p.0).max().unwrap_or(NONE);
    (f(lo), f(hi))
}

#[test]
fn the_first_step_seeds_the_table() {
    let first = [(10, 20), (11, 21), (10, 20)];
    for (name, mut join) in engines() {
        let rows = join(3, 0, pairs(&first), (f(NONE), f(NONE)));
        assert_eq!(
            rows,
            vec![vec![10, 20, NONE, NONE], vec![10, 20, NONE, NONE], vec![11, 21, NONE, NONE]],
            "{}",
            name
        );
    }
    let mut table = vec![vec![f(1), f(2)]];
    seed(&mut table, 1, &pairs(&[(3, 4)]));
    assert_eq!(sorted(&table), vec![vec![1, 2], vec![3, 4]]);
}

#[test]
fn a_step_extends_each_row_by_each_matching_pair() {
    let first = [(1, 5), (2, 6), (3, 5), (4, 9)];
    let second = [(6, 70), (5, 50), (5, 51), (8, 80)];
    for (name, mut join) in engines() {
        join(2, 0, pairs(&first), (f(NONE), f(NONE)));
        let rows = join(2, 1, pairs(&second), range_of(&second));
        assert_eq!(
            rows,
            vec![vec![1, 5, 50], vec![1, 5, 51], vec![2, 6, 70], vec![3, 5, 50], vec![3, 5, 51]],
            "{}",
            name
        );
    }
}

#[test]
fn a_join_without_matches_leaves_an_empty_table() {
    let first = [(1, 5), (2, 6)];
    let second = [(7, 70), (8, 80)];
    let third = [(70, 1)];
    for (name, mut join) in engines() {
        join(3, 0, pairs(&first), (f(NONE), f(NONE)));
        assert_eq!(join(3, 1, pairs(&second), range_of(&second)), Vec::<Vec<usize>>::new(), "{}", name);
        assert_eq!(join(3, 2, pairs(&third), range_of(&third)), Vec::<Vec<usize>>::new(), "{}", name);
    }
}

#[test]
fn an_empty_relation_leaves_an_empty_table() {
    let first = [(1, 5), (2, 6)];
    for improved in [false, true] {
        let mut sort_merge = SortMergeJoin::new(improved);
        sort_merge.join(&Settings { join_count: 2 }, 0, pairs(&first), (f(NONE), f(NONE)));
        sort_merge.join(&Settings { join_count: 2 }, 1, Vec::new(), (f(NONE), f(NONE)));
        assert!(sort_merge.results().is_empty());
    }
    let mut hash = HashJoin::new(false);
    hash.join(&Settings { join_count: 2 }, 0, pairs(&first), (f(NONE), f(NONE)));
    hash.join(&Settings { join_count: 2 }, 1, Vec::new(), (f(NONE), f(NONE)));
    assert!(hash.results().is_empty());
}

/// A sequence of numbers that looks random and is the same on every run.
fn numbers(seed: u64, count: usize, below: usize) -> Vec<usize> {
    let mut state = seed;
    (0..count)
        .map(|_| {
            state = state.wrapping_mul(6364136223846793005).wrapping_add(1442695040888963407);
            ((state >> 33) as usize) % below
        })
        .collect()
}

fn relation(seed: u64, count: usize, subjects: usize, objects: usize) -> Vec<(usize, usize)> {
    let s = numbers(seed, count, subjects);
    let o = numbers(seed + 1, count, objects);
    s.into_iter().zip(o).collect()
}

#[test]
fn all_engines_give_the_same_rows_on_a_long_chain() {
    // Subjects below 1024: eight buckets of 128 cover them all.
    for relations in [2usize, 3, 8, 9, 12] {
        let chain: Vec<Vec<(usize, usize)>> =
            (0..relations).map(|k| relation(7 * k as u64 + 1, 300, 1000, 1000)).collect();
        let mut expected: Vec<Vec<usize>> = chain[0]
            .iter()
            .map(|&(s, o)| {
                let mut row = vec![NONE; relations + 1];
                row[0] = s;
                row[1] = o;
                row
            })
            .collect();
        expected.sort();
        let mut all = engines();
        for (name, join) in all.iter_mut() {
            assert_eq!(join(relations, 0, pairs(&chain[0]), (f(NONE), f(NONE))), expected, "{}", name);
        }
        for k in 1..relations {
            expected = expected_step(&expected, &chain[k], k, NONE);
            for (name, join) in all.iter_mut() {
                let rows = join(relations, k, pairs(&chain[k]), range_of(&chain[k]));
                assert_eq!(rows, expected, "{} at step {} of {}", name, k, relations);
            }
        }
    }
}

#[test]
fn more_rows_than_a_chunk_holds_are_merged() {
    let first = relation(11, 5000, 4000, 600);
    let second = relation(13, 3000, 900, 50);
    let mut seeded: Vec<Vec<usize>> = first.iter().map(|&(s, o)| vec![s, o, NONE]).collect();
    seeded.sort();
    let expected = expected_step(&seeded, &second, 1, NONE);
    assert!(expected.len() > 10_000);
    for (name, mut join) in engines() {
        join(2, 0, pairs(&first), (f(NONE), f(NONE)));
        let rows = join(2, 1, pairs(&second), range_of(&second));
        assert_eq!(rows.len(), expected.len(), "{}", name);
        assert_eq!(rows, expected, "{}", name);
    }
}

#[test]
fn running_twice_gives_the_same_rows() {
    let first = relation(3, 2000, 500, 500);
    let second = relation(5, 2000, 500, 500);
    for ((name, mut once), (_, mut again)) in engines().into_iter().zip(engines()) {
        once(2, 0, pairs(&first), (f(NONE), f(NONE)));
        again(2, 0, pairs(&first), (f(NONE), f(NONE)));
        assert_eq!(
            once(2, 1, pairs(&second), range_of(&second)),
            again(2, 1, pairs(&second), range_of(&second)),
            "{}",
            name
        );
    }
}

#[test]
fn every_row_is_linked_to_a_pair_of_each_relation() {
    let chain: Vec<Vec<(usize, usize)>> = (0..4).map(|k| relation(k + 20, 200, 60, 60)).collect();
    for (name, mut join) in engines() {
        let mut rows = join(4, 0, pairs(&chain[0]), (f(NONE), f(NONE)));
        for k in 1..4 {
            rows = join(4, k, pairs(&chain[k]), range_of(&chain[k]));
        }
        assert!(!rows.is_empty(), "{}", name);
        for row in rows {
            assert_eq!(row.len(), 5);
            for k in 0..4 {
                assert!(chain[k].contains(&(row[k], row[k + 1])), "{}", name);
            }
        }
    }
}

#[test]
fn the_plain_hash_join_finds_nothing_for_the_sentinel() {
    let first = [(1, NONE), (2, 6)];
    let second = [(NONE, 70), (6, 60)];
    let mut hash = HashJoin::new(false);
    hash.join(&Settings { join_count: 2 }, 0, pairs(&first), (f(NONE), f(NONE)));
    hash.join(&Settings { join_count: 2 }, 1, pairs(&second), (f(6), f(NONE)));
    assert_eq!(sorted(hash.results()), vec![vec![2, 6, 60]]);
    let mut sort_merge = SortMergeJoin::new(false);
    sort_merge.join(&Settings { join_count: 2 }, 0, pairs(&first), (f(NONE), f(NONE)));
    sort_merge.join(&Settings { join_count: 2 }, 1, pairs(&second), (f(6), f(NONE)));
    assert_eq!(sorted(sort_merge.results()), vec![vec![1, NONE, 70], vec![2, 6, 60]]);
}

#[test]
fn the_improved_hash_join_finds_nothing_behind_the_last_bucket() {
    // Subjects from 100 to 1130: 1031 offsets, an eighth of which is 128. The eight
    // buckets end at 100 + 8 * 128.
    assert_eq!(bucket_limit(f(100), f(1130)), 1124);
    let first: Vec<(usize, usize)> = (0..1200).map(|i| (i, i)).collect();
    let second: Vec<(usize, usize)> = (100..=1130).map(|i| (i, 2 * i)).collect();
    let mut seeded: Vec<Vec<usize>> = first.iter().map(|&(s, o)| vec![s, o, NONE]).collect();
    seeded.sort();
    let mut plain = HashJoin::new(false);
    plain.join(&Settings { join_count: 2 }, 0, pairs(&first), (f(NONE), f(NONE)));
    plain.join(&Settings { join_count: 2 }, 1, pairs(&second), range_of(&second));
    assert_eq!(sorted(plain.results()), expected_step(&seeded, &second, 1, NONE));
    assert_eq!(plain.results().len(), 1031);
    let mut improved = HashJoin::new(true);
    improved.join(&Settings { join_count: 2 }, 0, pairs(&first), (f(NONE), f(NONE)));
    improved.join(&Settings { join_count: 2 }, 1, pairs(&second), range_of(&second));
    assert_eq!(sorted(improved.results()), expected_step(&seeded, &second, 1, 1124));
    assert_eq!(improved.results().len(), 1024);
}

#[test]
fn the_buckets_are_an_eighth_of_the_range_and_128_at_the_least() {
    assert_eq!(bucket_limit(f(0), f(0)), 1024);
    assert_eq!(bucket_limit(f(50), f(60)), 50 + 1024);
    assert_eq!(bucket_limit(f(0), f(8 * 200 - 1)), 1600);
    assert_eq!(bucket_limit(f(10), f(10 + 8 * 200)), 10 + 1600);
    assert_eq!(bucket_limit(f(0), f(usize::MAX)), usize::MAX);
    assert_eq!(bucket_limit(f(usize::MAX - 5), f(usize::MAX - 1)), usize::MAX);
}

#[test]
fn the_owning_bucket_is_the_last_that_starts_at_or_below() {
    let starts = [0usize, 10, 20, 30, 40, 50, 60, 70];
    let ranges: [std::ops::Range<Field>; 8] =
        std::array::from_fn(|k| f(starts[k])..f(starts[k] + 10));
    assert_eq!(owning_bucket(&ranges, f(0)), 0);
    assert_eq!(owning_bucket(&ranges, f(9)), 0);
    assert_eq!(owning_bucket(&ranges, f(10)), 1);
    assert_eq!(owning_bucket(&ranges, f(45)), 4);
    assert_eq!(owning_bucket(&ranges, f(70)), 7);
    assert_eq!(owning_bucket(&ranges, f(1000)), 7);
}

#[test]
fn the_lower_bound_is_the_first_pair_not_below() {
    let relation = pairs(&[(1, 0), (3, 0), (3, 1), (7, 0)]);
    assert_eq!(lower_bound(&relation, f(0)), 0);
    assert_eq!(lower_bound(&relation, f(1)), 0);
    assert_eq!(lower_bound(&relation, f(2)), 1);
    assert_eq!(lower_bound(&relation, f(3)), 1);
    assert_eq!(lower_bound(&relation, f(4)), 3);
    assert_eq!(lower_bound(&relation, f(7)), 3);
    assert_eq!(lower_bound(&relation, f(8)), 4);
    assert_eq!(lower_bound(&Vec::new(), f(8)), 0);
}

#[test]
fn a_chunk_is_merged_in_place() {
    let mut chunk: Vec<Vec<Field>> =
        [[0usize, 2, NONE], [1, 3, NONE], [2, 3, NONE], [3, 5, NONE], [4, 9, NONE]]
            .iter()
            .map(|row| row.iter().map(|&o| f(o)).collect())
            .collect();
    let relation = pairs(&[(1, 10), (3, 30), (3, 31), (5, 50), (5, 51), (5, 52), (6, 60)]);
    let out = merge_chunk(&mut chunk, 2, &relation, 1);
    assert_eq!(out.base, 2048);
    assert_eq!(out.deleted, vec![2048, 2052]);
    assert_eq!(
        sorted(&chunk),
        vec![vec![0, 2, NONE], vec![1, 3, 30], vec![2, 3, 30], vec![3, 5, 50], vec![4, 9, NONE]]
    );
    assert_eq!(
        sorted(&out.added),
        vec![vec![1, 3, 31], vec![2, 3, 31], vec![3, 5, 51], vec![3, 5, 52]]
    );
}

#[test]
fn rows_leave_from_the_highest_index_down() {
    let mut table: Vec<Vec<Field>> = (0..10).map(|i| vec![f(i)]).collect();
    remove_rows(&mut table, &vec![9, 6, 5, 0]);
    assert_eq!(sorted(&table), vec![vec![1], vec![2], vec![3], vec![4], vec![7], vec![8]]);
    remove_rows(&mut table, &Vec::new());
    assert_eq!(table.len(), 6);
}
