use sparql_join::args::{colored, Args};
use sparql_join::expect_lazy::{ExpectFmt, ExpectUnwind};
use sparql_join::extending::hash_map::HashMap;
use sparql_join::extending::linked_list::LinkedList;
use sparql_join::extending::snoc_list::{NonEmpty, SnocList};
use sparql_join::indented::{indented, indented_by};
use sparql_join::partial_eq;

fn request(thread_count: usize, print_count: usize) -> Args {
    Args {
        relations: Vec::new(),
        chunk_size: 0,
        thread_count,
        debug: false,
        list_relations: false,
        show_table: Vec::new(),
        show_chunks: false,
        hash_join: false,
        sort_merge_join: false,
        print_result: false,
        print_count,
        improved: false,
    }
}

#[test]
fn one_worker_gets_one_chunk_and_more_get_one_more() {
    assert_eq!(request(1, 10).chunk_count(), 1);
    assert_eq!(request(2, 10).chunk_count(), 3);
    assert_eq!(request(8, 10).chunk_count(), 9);
    assert_eq!(request(0, 10).chunk_count(), 1);
}

#[test]
fn the_workers_are_what_the_machine_offers_where_none_are_asked_for() {
    let mut args = request(0, 10);
    assert!(args.adjust(6));
    assert_eq!(args.thread_count, 6);
    assert!(!args.adjust(12));
    assert_eq!(args.thread_count, 6);
    assert_eq!(args.print_count, 10);
}

#[test]
fn the_rows_to_print_are_capped() {
    assert_eq!(request(1, 10).rows_to_print(25), 10);
    assert_eq!(request(1, 10).rows_to_print(10), 10);
    assert_eq!(request(1, 10).rows_to_print(3), 3);
    assert_eq!(request(1, 0).rows_to_print(25), 25);
}

#[test]
fn colors_are_escape_sequences() {
    assert_eq!(colored("1;31", "Error:", true), "\x1b[1;31mError:\x1b[0m");
    assert_eq!(colored("1;31", "Error:", false), "Error:");
}

#[test]
fn every_line_is_set_in() {
    assert_eq!(indented("a\nb".to_string()).to_text(), "    a\n    b");
    assert_eq!(indented_by("a\n\nb\n".to_string(), "> ").to_text(), "> a\n> \n> b\n> ");
    assert_eq!(indented_by(String::new(), "--").to_text(), "--");
    assert_eq!(indented_by("x".to_string(), "\n").to_text(), "\n\nx");
    assert_eq!(indented_by("gr\u{fc}n\nblau".to_string(), "\u{b7}").to_text(), "\u{b7}gr\u{fc}n\n\u{b7}blau");
    assert_eq!(indented(7).value, 7);
    assert_eq!(indented(7).indent, "    ");
}

#[test]
fn a_missing_value_equals_nothing() {
    let three = partial_eq::PartialEq(Some(3));
    let four = partial_eq::PartialEq(Some(4));
    let missing: partial_eq::PartialEq<i32> = partial_eq::PartialEq(None);
    assert!(three.eq(&partial_eq::PartialEq(Some(3))));
    assert!(!three.eq(&four));
    assert!(!three.eq(&missing));
    assert!(!missing.eq(&three));
    assert!(!missing.eq(&partial_eq::PartialEq(None)));
}

#[test]
fn what_is_held_is_taken_out() {
    let held: Result<u8, String> = Ok(5);
    assert_eq!(held.expect_fmt("a value is expected"), 5);
    let left: Result<u8, String> = Ok(6);
    assert_eq!(left.expect_unwind(), 6);
    let nothing: Option<String> = None;
    nothing.expect_unwind();
}

#[test]
fn the_map_gathers_the_values_of_a_key() {
    let mut map: HashMap<u8, Vec<char>> = HashMap::default();
    map.extend(vec![(1, 'a'), (2, 'b'), (1, 'c')]);
    map.extend(vec![(2, 'd'), (3, 'e')]);
    let inner = map.get();
    assert_eq!(inner.get(&1), Some(&vec!['a', 'c']));
    assert_eq!(inner.get(&2), Some(&vec!['b', 'd']));
    assert_eq!(inner.get(&3), Some(&vec!['e']));
    assert_eq!(inner.len(), 3);
    let gathered: HashMap<u8, Vec<char>> = HashMap::from_iter(vec![(9, 'z'), (9, 'y')]);
    assert_eq!(gathered.0.get(&9), Some(&vec!['z', 'y']));
    assert_eq!(HashMap::from(inner).0.len(), 3);
}

#[test]
fn lists_are_put_behind_a_list() {
    let mut list = LinkedList::from(1);
    list.extend(vec![2, 3]);
    list.extend_lists(vec![LinkedList::from_iter(vec![4, 5]), LinkedList::default(), LinkedList::from(6)]);
    assert_eq!(list.0.into_iter().collect::<Vec<u8>>(), vec![1, 2, 3, 4, 5, 6]);
}

#[test]
fn a_list_grows_at_its_end() {
    let list = NonEmpty::new(1).snoc(2).snocs(vec![3, 4]);
    assert_eq!(list.len(), 4);
    assert_eq!(*list.last(), 4);
    assert_eq!(list.map_vec(|x| x * 10), vec![10, 20, 30, 40]);
    assert_eq!(NonEmpty::new('a').map_vec(|c| *c), vec!['a']);
    assert_eq!(NonEmpty::new('a').snocs(Vec::new()).len(), 1);
}

#[test]
fn a_list_that_may_be_empty_grows_at_its_end() {
    let empty: SnocList<u8> = SnocList::new();
    assert_eq!(empty.map_vec(|x| *x), Vec::<u8>::new());
    assert_eq!(SnocList::single(5).map_vec(|x| *x), vec![5]);
    assert_eq!(SnocList::new().snoc(1).snoc(2).map_vec(|x| *x), vec![1, 2]);
    assert_eq!(SnocList::new().snocs(vec![1, 2, 3]).snocs(vec![4]).map_vec(|x| x + 1), vec![2, 3, 4, 5]);
    assert_eq!(SnocList::<u8>::new().snocs(Vec::new()).map_vec(|x| *x), Vec::<u8>::new());
}

#[test]
fn the_elements_are_visited_from_the_last_to_the_first() {
    let list = SnocList::new().snocs(vec!['a', 'b', 'c']);
    let visited = std::cell::RefCell::new(Vec::new());
    let made = list.map_vec(|c| {
        visited.borrow_mut().push(*c);
        c.to_ascii_uppercase()
    });
    assert_eq!(made, vec!['A', 'B', 'C']);
    assert_eq!(visited.into_inner(), vec!['c', 'b', 'a']);
}
