use sparql_join::chunks::{best_chunks, count_lines, next_power_of_two, Chunk};
use sparql_join::input::Input;

fn lines_of(chunk: &mut Chunk) -> Vec<(usize, Vec<u8>)> {
    let mut found = Vec::new();
    while let Some(line) = chunk.next() {
        found.push((line.offset, line.data.to_vec()));
    }
    assert!(chunk.next().is_none());
    found
}

/// All lines of all iterators, in the order of their offsets.
fn divided(data: &[u8], count: usize, size_hint: usize) -> Vec<(usize, Vec<u8>)> {
    let input = Input::new(data);
    let mut chunks = input.divide_chunks(count, size_hint, 4096);
    let mut all = Vec::new();
    for chunk in chunks.iter_mut() {
        all.extend(lines_of(chunk));
    }
    all.sort();
    all
}

fn sample(lines: usize) -> Vec<u8> {
    let mut data = Vec::new();
    for i in 0..lines {
        data.extend_from_slice(format!("s{}\tp{}\to{} .\n", i, i % 3, i * 7).as_bytes());
    }
    data
}

fn assert_partition(data: &[u8], count: usize, size_hint: usize) {
    let all = divided(data, count, size_hint);
    let mut offset = 0;
    let mut together = Vec::new();
    for (at, line) in all {
        assert_eq!(at, offset);
        offset += line.len();
        together.extend(line);
    }
    assert_eq!(together, data);
}

#[test]
fn powers_of_two() {
    assert_eq!(next_power_of_two(0), 1);
    assert_eq!(next_power_of_two(1), 1);
    assert_eq!(next_power_of_two(2), 2);
    assert_eq!(next_power_of_two(3), 4);
    assert_eq!(next_power_of_two(100), 128);
    assert_eq!(next_power_of_two(4096), 4096);
    assert_eq!(next_power_of_two(4097), 8192);
    assert_eq!(next_power_of_two(usize::MAX / 2 + 1), usize::MAX / 2 + 1);
}

#[test]
fn the_best_chunk_is_a_multiple_of_the_unit() {
    assert_eq!(best_chunks(3, 4096, 100_000), 36_864);
    assert_eq!(best_chunks(3, 100, 1000), 384);
    assert_eq!(best_chunks(2, 16, 64), 32);
    assert_eq!(best_chunks(2, 16, 65), 48);
    assert_eq!(best_chunks(1, 1, 10), 10);
    assert_eq!(best_chunks(4, 8, 0), 0);
}

#[test]
fn one_or_two_workers_get_a_single_iterator() {
    let data = sample(10);
    let input = Input::new(&data);
    for count in 0..3 {
        let chunks = input.divide_chunks(count, 16, 4096);
        assert_eq!(chunks.len(), 1);
        assert_partition(&data, count, 16);
    }
}

#[test]
fn more_workers_get_a_chunk_each_and_one_the_cuts() {
    let data = sample(100);
    let input = Input::new(&data);
    // Two workers with 1024 bytes each cover the buffer.
    assert!(data.len() > 1024 && data.len() <= 2048);
    let chunks = input.divide_chunks(3, 1024, 4096);
    assert_eq!(chunks.len(), 3);
    match &chunks[0] {
        Chunk::Lines(lines) => {
            assert_eq!((lines.base, lines.chunk.len(), lines.skip_first, lines.tail), (0, 1024, false, false))
        }
        Chunk::Breaks(_) => panic!("the first iterator walks over a chunk"),
    }
    match &chunks[1] {
        Chunk::Lines(lines) => assert_eq!(
            (lines.base, lines.chunk.len(), lines.skip_first, lines.tail),
            (1024, data.len() - 1024, true, true)
        ),
        Chunk::Breaks(_) => panic!("the second iterator walks over a chunk"),
    }
    match &chunks[2] {
        Chunk::Breaks(breaks) => assert_eq!((breaks.base_offset, breaks.chunk_size), (0, 1024)),
        Chunk::Lines(_) => panic!("the last iterator walks over the cuts"),
    }
}

#[test]
fn a_chunk_size_is_rounded_up_to_a_power_of_two() {
    let data = sample(20);
    let input = Input::new(&data);
    // 100 bytes are asked for, less than a page; the chunks are of 128 bytes.
    let chunks = input.divide_chunks(9, 100, 4096);
    match chunks.last() {
        Some(Chunk::Breaks(breaks)) => assert_eq!(breaks.chunk_size, 128),
        _ => panic!("the last iterator walks over the cuts"),
    }
    // No size is asked for: the chunks are of a page.
    let chunks = input.divide_chunks(9, 0, 4096);
    match chunks.last() {
        Some(Chunk::Breaks(breaks)) => assert_eq!(breaks.chunk_size, 4096),
        _ => panic!("the last iterator walks over the cuts"),
    }
    assert_eq!(chunks.len(), 2);
}

#[test]
fn workers_that_do_not_cover_the_buffer_get_larger_chunks() {
    let data = sample(200);
    let input = Input::new(&data);
    let len = data.len();
    assert!(len > 2 * 64);
    let chunks = input.divide_chunks(3, 64, 4096);
    let per_worker = (len + 1) / 2;
    let size = (per_worker + 63) / 64 * 64;
    match chunks.last() {
        Some(Chunk::Breaks(breaks)) => assert_eq!(breaks.chunk_size, size),
        _ => panic!("the last iterator walks over the cuts"),
    }
    assert_eq!(chunks.len(), 3);
}

#[test]
fn the_lines_of_all_iterators_are_the_buffer() {
    let data = sample(300);
    for count in [1, 2, 3, 4, 5, 8, 17] {
        for size_hint in [32, 64, 100, 512, 4096] {
            assert_partition(&data, count, size_hint);
        }
    }
}

#[test]
fn a_last_line_without_newline_belongs_to_the_last_chunk() {
    let mut data = sample(50);
    data.extend_from_slice(b"s\tp\to .");
    for count in [1, 3, 6] {
        assert_partition(&data, count, 64);
    }
}

#[test]
fn a_cut_behind_a_newline_gives_the_next_line_to_the_cuts() {
    // Chunks of four bytes: the first ends with its newline.
    let data = b"abc\nde\nfgh\nij\n";
    let input = Input::new(data);
    let mut chunks = input.divide_chunks(5, 4, 4096);
    assert_eq!(chunks.len(), 5);
    assert_eq!(lines_of(&mut chunks[0]), vec![(0, b"abc\n".to_vec())]);
    assert_eq!(lines_of(&mut chunks[1]), Vec::new());
    assert_eq!(lines_of(&mut chunks[2]), Vec::new());
    assert_eq!(lines_of(&mut chunks[3]), Vec::new());
    assert_eq!(
        lines_of(&mut chunks[4]),
        vec![(4, b"de\n".to_vec()), (7, b"fgh\n".to_vec()), (11, b"ij\n".to_vec())]
    );
    assert_partition(data, 5, 4);
}

#[test]
fn an_empty_buffer_has_no_lines() {
    assert_eq!(divided(b"", 1, 0), Vec::new());
    assert_eq!(divided(b"", 4, 16), Vec::new());
    assert_eq!(Input::new(b"").divide_chunks(4, 16, 4096).len(), 1);
}

#[test]
fn a_line_may_run_through_whole_chunks_into_the_last() {
    // Chunks of four bytes: the second, the third and the fourth hold no newline.
    let data = b"ab\ncdefghijklmno\np\n";
    let input = Input::new(data);
    let mut chunks = input.divide_chunks(6, 4, 4096);
    assert_eq!(chunks.len(), 6);
    assert_eq!(lines_of(&mut chunks[0]), vec![(0, b"ab\n".to_vec())]);
    assert_eq!(lines_of(&mut chunks[1]), Vec::new());
    assert_eq!(lines_of(&mut chunks[2]), Vec::new());
    assert_eq!(lines_of(&mut chunks[3]), Vec::new());
    assert_eq!(lines_of(&mut chunks[4]), vec![(17, b"p\n".to_vec())]);
    assert_eq!(lines_of(&mut chunks[5]), vec![(3, b"cdefghijklmno\n".to_vec())]);
    assert_partition(data, 6, 4);
}

#[test]
fn a_line_that_runs_through_a_chunk_ends_the_walk_over_the_cuts() {
    // Chunks of four bytes: the second holds no newline, and the line that runs
    // through it ends before the last chunk. The cut behind the third chunk is
    // not looked at any more.
    let data = b"ab\ncdefgh\nij\nkl\nmn\n";
    let input = Input::new(data);
    let mut chunks = input.divide_chunks(6, 4, 4096);
    let last = chunks.len() - 1;
    assert_eq!(lines_of(&mut chunks[last]), vec![(3, b"cdefgh\n".to_vec())]);
    let all = divided(data, 6, 4);
    let bytes: usize = all.iter().map(|line| line.1.len()).sum();
    assert!(bytes < data.len());
}

#[test]
fn a_first_line_longer_than_a_chunk_is_walked_over_by_no_one() {
    let data = b"abcdefgh\nij\n";
    assert_eq!(divided(data, 4, 4), vec![(9, b"ij\n".to_vec())]);
}

#[test]
fn the_lines_of_each_iterator_are_counted() {
    let data = b"abc\nde\nfgh\nij\n";
    let input = Input::new(data);
    assert_eq!(count_lines(input.divide_chunks(5, 4, 4096)), vec![1, 0, 0, 0, 3]);
    assert_eq!(count_lines(input.divide_chunks(1, 4, 4096)), vec![4]);
    let mut chunks = input.divide_chunks(5, 4, 4096);
    assert!(chunks[4].next().is_some());
    assert_eq!(chunks[4].count(), 2);
    assert_eq!(chunks[4].count(), 0);
    let sum: usize = count_lines(Input::new(&sample(300)).divide_chunks(9, 512, 4096)).iter().sum();
    assert_eq!(sum, 300);
}

#[test]
fn one_or_two_workers_take_any_size() {
    let data = sample(10);
    let input = Input::new(&data);
    for count in 0..3 {
        for size_hint in [0, 1, usize::MAX / 2 + 2, usize::MAX] {
            let mut chunks = input.divide_chunks(count, size_hint, usize::MAX);
            assert_eq!(chunks.len(), 1);
            let mut all = input.iter_lines();
            while let Some(line) = all.next() {
                let same = chunks[0].next().unwrap();
                assert_eq!((same.offset, same.data), (line.offset, line.data));
            }
            assert!(chunks[0].next().is_none());
        }
    }
}
