use sparql_join::bytes::{DQUOTE, NL, SPACE, TAB};
use sparql_join::input::{field_len, Field, Input, InputLine, ParseError, Str};
use sparql_join::strmap::hash_bytes;

fn line(data: &[u8]) -> InputLine<'_> {
    InputLine { offset: 0, data }
}

fn parsed(data: &[u8]) -> (Vec<u8>, Vec<u8>, Vec<u8>) {
    match line(data).parse() {
        Ok((s, p, o)) => (s.bytes.to_vec(), p.bytes.to_vec(), o.bytes.to_vec()),
        Err(e) => panic!("the line does not parse: {:?}", e),
    }
}

#[test]
fn the_separating_bytes_are_what_they_are_called() {
    assert_eq!(NL, b'\n');
    assert_eq!(TAB, b'\t');
    assert_eq!(SPACE, b' ');
    assert_eq!(DQUOTE, b'"');
}

#[test]
fn a_plain_field_ends_before_the_next_tab_or_space() {
    assert_eq!(field_len(b"abc\tdef"), Ok(3));
    assert_eq!(field_len(b"abc def"), Ok(3));
    assert_eq!(field_len(b"ab c\td"), Ok(2));
    assert_eq!(field_len(b"\tabc"), Ok(0));
}

#[test]
fn a_quoted_field_runs_through_the_closing_quote() {
    assert_eq!(field_len(b"\"a b\tc\" rest"), Ok(7));
    assert_eq!(field_len(b"\"\""), Ok(2));
}

#[test]
fn a_field_without_its_end_is_an_error() {
    assert_eq!(field_len(b"\"abc"), Err(ParseError::UnterminatedQuote));
    assert_eq!(field_len(b"\""), Err(ParseError::UnterminatedQuote));
    assert_eq!(field_len(b"abc"), Err(ParseError::MissingTerminator));
    assert_eq!(field_len(b"abc\n"), Err(ParseError::MissingTerminator));
    assert_eq!(field_len(b""), Err(ParseError::MissingTerminator));
}

#[test]
fn a_line_parses_into_three_fields() {
    let (s, p, o) = parsed(b"<a>\t<p>\t<x> .\n");
    assert_eq!(s, b"<a>");
    assert_eq!(p, b"<p>");
    assert_eq!(o, b"<x>");
}

#[test]
fn the_fields_know_where_they_stand() {
    let data = b"0123456789<a>\t<p>\t\"x y\" .\n";
    let input = Input::new(data);
    let first = InputLine { offset: 10, data: &data[10..] };
    let (s, p, o) = first.parse().unwrap();
    assert_eq!(s.origin, Field::from_offset(10));
    assert_eq!(p.origin, Field::from_offset(14));
    assert_eq!(o.origin, Field::from_offset(18));
    assert_eq!(o.bytes, b"\"x y\"");
    assert_eq!(input.extract_field(o), Field::from_offset(18));
    assert_eq!(input.extract_str(Field::from_offset(14)).bytes, b"<p>");
    assert_eq!(input.extract_str(Field::from_offset(18)).bytes, b"\"x y\"");
    assert_eq!(input.field_end(Field::from_offset(10)), Ok(3));
}

#[test]
fn parsing_and_putting_together_again_gives_the_record() {
    for record in [&b"a\tp\tx"[..], b"\"a b\"\tp\t\"x\ty\"", b"<http://a>\t<p>\t\"1\"", b"\tp\tx"] {
        let mut data = record.to_vec();
        data.extend_from_slice(b" .\n");
        let (s, p, o) = parsed(&data);
        let mut again = s.clone();
        again.push(b'\t');
        again.extend_from_slice(&p);
        again.push(b'\t');
        again.extend_from_slice(&o);
        assert_eq!(again, record);
    }
}

#[test]
fn a_malformed_line_is_an_error() {
    assert_eq!(line(b"a\tp\tx\n").parse().err(), Some(ParseError::MissingTerminator));
    assert_eq!(line(b"a\tp").parse().err(), Some(ParseError::MissingTerminator));
    assert_eq!(line(b"a\t").parse().err(), Some(ParseError::MissingTerminator));
    assert_eq!(line(b"\"a\"").parse().err(), Some(ParseError::MissingTerminator));
    assert_eq!(line(b"a\t\"p\tx \n").parse().err(), Some(ParseError::UnterminatedQuote));
    assert_eq!(line(b"\"a\tp\tx \n").parse().err(), Some(ParseError::UnterminatedQuote));
    assert_eq!(line(b"a\tp\t\"x \n").parse().err(), Some(ParseError::UnterminatedQuote));
    assert_eq!(line(b"").parse().err(), Some(ParseError::MissingTerminator));
}

fn all_lines(data: &[u8]) -> Vec<(usize, Vec<u8>)> {
    let input = Input::new(data);
    let mut lines = input.iter_lines();
    let mut found = Vec::new();
    while let Some(line) = lines.next() {
        found.push((line.offset, line.data.to_vec()));
    }
    assert!(lines.next().is_none());
    found
}

#[test]
fn the_lines_end_with_their_newline() {
    assert_eq!(
        all_lines(b"ab\n\ncd\n"),
        vec![(0, b"ab\n".to_vec()), (3, b"\n".to_vec()), (4, b"cd\n".to_vec())]
    );
    assert_eq!(all_lines(b""), Vec::new());
    assert_eq!(all_lines(b"\n"), vec![(0, b"\n".to_vec())]);
}

#[test]
fn a_last_line_without_newline_is_a_line() {
    assert_eq!(all_lines(b"ab\ncd"), vec![(0, b"ab\n".to_vec()), (3, b"cd".to_vec())]);
    assert_eq!(all_lines(b"cd"), vec![(0, b"cd".to_vec())]);
}

#[test]
fn a_triple_at_the_end_without_newline_is_parsed() {
    let data = b"a\tp\tx \nb\tq\t\"y\"";
    let input = Input::new(data);
    let mut lines = input.iter_lines();
    let first = lines.next().unwrap().parse().unwrap();
    assert_eq!(first.2.bytes, b"x");
    let last = lines.next().unwrap();
    assert_eq!(last.offset, 7);
    let (s, p, o) = last.parse().unwrap();
    assert_eq!((s.bytes, p.bytes, o.bytes), (&b"b"[..], &b"q"[..], &b"\"y\""[..]));
    assert_eq!(o.origin, Field::from_offset(11));
    assert!(lines.next().is_none());

    let spaced = b"b\tq\ty .";
    let (_, _, o) = Input::new(spaced).iter_lines().next().unwrap().parse().unwrap();
    assert_eq!(o.bytes, b"y");
}

#[test]
fn fields_advance_up_to_the_sentinel() {
    let field = Field::from_offset(5);
    assert!(field.is_valid());
    assert_eq!(field.offset(), 5);
    assert_eq!(field.advance(7), Field::from_offset(12));
    assert_eq!(field.advance(usize::MAX), Field::invalid());
    assert_eq!(Field::from_offset(usize::MAX - 1).advance(1), Field::invalid());
    assert!(!Field::invalid().is_valid());
    assert_eq!(Field::invalid().offset(), usize::MAX);
    let range = field.make_range(10);
    assert_eq!(range.start, Field::from_offset(5));
    assert_eq!(range.end, Field::from_offset(15));
    assert_eq!(Field::from_offset(1).make_range(usize::MAX).end, Field::invalid());
}

#[test]
fn strs_compare_by_their_bytes() {
    let data = b"abc abc abd";
    let first = Str { bytes: &data[0..3], origin: Field::from_offset(0) };
    let second = Str { bytes: &data[4..7], origin: Field::from_offset(4) };
    let third = Str { bytes: &data[8..11], origin: Field::from_offset(8) };
    assert!(first.same_bytes(second));
    assert!(!first.same_bytes(third));
    assert!(first.same_bytes(Str::new("abc")));
    assert!(!first.same_bytes(Str::new("ab")));
    assert_eq!(first.len(), 3);
    assert_eq!(Str::new("").len(), 0);
    assert_eq!(Str::new("abc").origin, Field::invalid());
}

#[test]
fn decoding_replaces_what_is_not_text() {
    assert_eq!(Str::new("gr\u{fc}n").decode(), "gr\u{fc}n");
    let broken = [b'a', 0xff, b'b'];
    let s = Str { bytes: &broken, origin: Field::invalid() };
    assert_eq!(s.decode(), "a\u{fffd}b");
}

#[test]
fn the_hash_adds_and_multiplies() {
    assert_eq!(hash_bytes(b""), 0);
    assert_eq!(hash_bytes(b"a"), 97 * 31);
    assert_eq!(hash_bytes(b"ab"), (97 * 31 + 98) * 31);
    let long = [0xffu8; 64];
    let mut expected: u64 = 0;
    for byte in long {
        expected = expected.wrapping_add(byte as u64).wrapping_mul(31);
    }
    assert_eq!(hash_bytes(&long), expected);
}
