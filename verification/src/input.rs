//! The byte buffer and the values that point into it.

use vstd::prelude::*;
use vstd::string::StringSliceAdditionalSpecFns;
use crate::bytes::{first_index, is_first, lemma_first_index, DQUOTE, NL, SPACE, TAB};

verus! {

/// The offset of a field's first byte in the buffer.
#[derive(Clone, Copy, Debug, Hash, PartialEq, Eq, PartialOrd, Ord, Structural)]
pub struct Field(pub usize);

impl Field {
    /// The sentinel that stands for "no field": the largest offset there is.
    #[verifier::allow_in_spec]
    pub fn invalid() -> Field
        returns
            Field(usize::MAX),
    {
        Field(usize::MAX)
    }

    /// A field is valid unless it is the sentinel.
    pub open spec fn valid(self) -> bool {
        self.0 != usize::MAX
    }

    /// Tells whether the field is anything but the sentinel.
    #[verifier::when_used_as_spec(valid)]
    pub fn is_valid(self) -> (b: bool)
        ensures
            b == self.valid(),
    {
        self.0 != usize::MAX
    }

    /// The offset of the field's first byte.
    pub fn offset(self) -> (off: usize)
        ensures
            off == self.0,
    {
        self.0
    }

    /// The field `by` bytes further on, or the sentinel where no offset can hold the sum.
    pub open spec fn advanced(self, by: usize) -> Field {
        if self.0 + by > usize::MAX {
            Field(usize::MAX)
        } else {
            Field((self.0 + by) as usize)
        }
    }

    /// The field `by` bytes further on, or the sentinel where no offset can hold the sum.
    pub fn advance(self, by: usize) -> (next: Field)
        ensures
            next == self.advanced(by),
    {
        match self.0.checked_add(by) {
            Some(off) => Field(off),
            None => Field(usize::MAX),
        }
    }

    /// The field at the offset.
    pub fn from_offset(off: usize) -> (field: Field)
        ensures
            field == Field(off),
    {
        Field(off)
    }

    /// The half-open range from this field up to, not including, the one `length` bytes on.
    pub fn make_range(self, length: usize) -> (range: core::ops::Range<Field>)
        ensures
            range.start == self,
            range.end == self.advanced(length),
    {
        self..self.advance(length)
    }
}


/// Why a line does not hold three fields.
#[derive(Clone, Copy, Debug, PartialEq, Eq, Structural)]
pub enum ParseError {
    /// A field opens with a double quote that nothing closes.
    UnterminatedQuote,
    /// An unquoted field, or the place where one should start, is followed by no tab or space.
    MissingTerminator,
}

/// What is left of `data` from index `from` on; nothing where `data` is shorter.
pub open spec fn rest(data: Seq<u8>, from: int) -> Seq<u8> {
    if 0 <= from <= data.len() {
        data.skip(from)
    } else {
        Seq::empty()
    }
}

/// The length of the field that `data` starts with.
///
/// A field that opens with a double quote runs through the next double quote. Any
/// other field runs up to, not including, the next tab or space.
pub open spec fn scan_field(data: Seq<u8>) -> Result<int, ParseError> {
    if data.len() == 0 {
        Err(ParseError::MissingTerminator)
    } else if data[0] == DQUOTE {
        match first_index(data.skip(1), DQUOTE, DQUOTE) {
            Some(i) => Ok(i + 2),
            None => Err(ParseError::UnterminatedQuote),
        }
    } else {
        match first_index(data, TAB, SPACE) {
            Some(i) => Ok(i),
            None => Err(ParseError::MissingTerminator),
        }
    }
}

/// The lengths of the three fields of a line: subject, property and object, each
/// followed by one separating byte.
pub open spec fn scan_line(data: Seq<u8>) -> Result<(int, int, int), ParseError> {
    match scan_field(data) {
        Err(e) => Err(e),
        Ok(s) => match scan_field(rest(data, s + 1)) {
            Err(e) => Err(e),
            Ok(p) => match scan_field(rest(data, s + p + 2)) {
                Err(e) => Err(e),
                Ok(o) => Ok((s, p, o)),
            },
        },
    }
}

/// A scanned field lies within the bytes it was scanned from.
pub proof fn lemma_scan_field_bounds(data: Seq<u8>)
    ensures
        match scan_field(data) {
            Ok(n) => 0 <= n <= data.len(),
            Err(_) => true,
        },
{
    if data.len() > 0 {
        lemma_first_index(data.skip(1), DQUOTE, DQUOTE);
        lemma_first_index(data, TAB, SPACE);
    }
}

/// A field of the start of a run of bytes is a field of the run.
pub proof fn lemma_scan_field_prefix(data: Seq<u8>, m: int)
    requires
        0 <= m <= data.len(),
        scan_field(data.take(m)) is Ok,
    ensures
        scan_field(data) == scan_field(data.take(m)),
{
    let head = data.take(m);
    assert(head[0] == data[0]);
    if head[0] == DQUOTE {
        lemma_first_index(head.skip(1), DQUOTE, DQUOTE);
        lemma_first_index(data.skip(1), DQUOTE, DQUOTE);
        let i = first_index(head.skip(1), DQUOTE, DQUOTE).unwrap();
        assert(head.skip(1)[i] == data.skip(1)[i]);
        assert(head.skip(1).take(i) =~= data.skip(1).take(i));
        assert(is_first(data.skip(1), i, DQUOTE, DQUOTE));
    } else {
        lemma_first_index(head, TAB, SPACE);
        lemma_first_index(data, TAB, SPACE);
        let i = first_index(head, TAB, SPACE).unwrap();
        assert(head[i] == data[i]);
        assert(head.take(i) =~= data.take(i));
        assert(is_first(data, i, TAB, SPACE));
    }
}

/// Measures the field that `data` starts with.
pub fn field_len(data: &[u8]) -> (found: Result<usize, ParseError>)
    ensures
        match found {
            Ok(n) => scan_field(data@) == Ok::<int, ParseError>(n as int) && n <= data@.len(),
            Err(e) => scan_field(data@) == Err::<int, ParseError>(e),
        },
{
    if data.len() == 0 {
        return Err(ParseError::MissingTerminator);
    }
    proof {
        lemma_first_index(data@.skip(1), DQUOTE, DQUOTE);
        lemma_first_index(data@, TAB, SPACE);
    }
    if data[0] == DQUOTE {
        match memchr::memchr(DQUOTE, &data[1..data.len()]) {
            Some(i) => Ok(i + 2),
            None => Err(ParseError::UnterminatedQuote),
        }
    } else {
        match memchr::memchr2(TAB, SPACE, data) {
            Some(i) => Ok(i),
            None => Err(ParseError::MissingTerminator),
        }
    }
}

/// A run of bytes together with the place in the buffer where it was found.
///
/// Two values are equal when their bytes are; the place plays no part in that.
#[derive(Clone, Copy, Debug)]
pub struct Str<'a> {
    /// The bytes.
    pub bytes: &'a [u8],
    /// The offset of the first byte in the buffer, or the sentinel for bytes
    /// that come from elsewhere.
    pub origin: Field,
}

impl<'a> View for Str<'a> {
    type V = Seq<u8>;

    open spec fn view(&self) -> Seq<u8> {
        self.bytes@
    }
}

/// The text that `String::from_utf8_lossy` makes of `bytes`.
pub uninterp spec fn lossy_text(bytes: Seq<u8>) -> Seq<char>;

/// `String::from_utf8_lossy` turns bytes into text and puts the replacement
/// character in the place of every sequence that is not UTF-8. Bytes that are
/// UTF-8 throughout come back as the text that they encode.
#[verifier::external_body]
fn from_utf8_lossy(bytes: &[u8]) -> (text: String)
    ensures
        text@ == lossy_text(bytes@),
        vstd::utf8::valid_utf8(bytes@) ==> text@ == vstd::utf8::decode_utf8(bytes@),
{
    String::from_utf8_lossy(bytes).into_owned()
}

impl<'a> Str<'a> {
    /// The bytes of a piece of text that is not part of the buffer.
    pub fn new(string: &'a str) -> (s: Str<'a>)
        ensures
            s@ == string.spec_bytes(),
            s.origin == Field::invalid(),
    {
        Str { bytes: string.as_bytes(), origin: Field::invalid() }
    }

    /// The bytes as text, with a replacement character for what is not UTF-8.
    pub fn decode(self) -> (text: String)
        ensures
            text@ == lossy_text(self@),
            vstd::utf8::valid_utf8(self@) ==> text@ == vstd::utf8::decode_utf8(self@),
    {
        from_utf8_lossy(self.bytes)
    }

    /// The number of bytes.
    pub fn len(self) -> (n: usize)
        ensures
            n == self@.len(),
    {
        self.bytes.len()
    }

    /// Byte-wise equality.
    pub fn same_bytes(self, other: Str<'_>) -> (same: bool)
        ensures
            same == (self@ == other@),
    {
        if self.bytes.len() != other.bytes.len() {
            return false;
        }
        let n: usize = self.bytes.len();
        let mut i: usize = 0;
        while i < n
            invariant
                i <= n,
                n == self@.len(),
                n == other@.len(),
                self@.take(i as int) == other@.take(i as int),
            decreases n - i,
        {
            if self.bytes[i] != other.bytes[i] {
                return false;
            }
            assert(self@.take(i + 1) =~= self@.take(i as int).push(self@[i as int]));
            assert(other@.take(i + 1) =~= other@.take(i as int).push(other@[i as int]));
            i += 1;
        }
        assert(self@ =~= self@.take(n as int));
        assert(other@ =~= other@.take(n as int));
        true
    }
}

/// One line of the buffer: its bytes and the offset of the first of them.
#[derive(Debug, Copy, Clone)]
pub struct InputLine<'a> {
    pub offset: usize,
    pub data: &'a [u8],
}

impl<'a> InputLine<'a> {
    /// The piece of this line that starts `from` bytes in and is `len` bytes long.
    pub open spec fn is_piece(self, s: Str<'a>, from: int, len: int) -> bool {
        &&& s@ == self.data@.subrange(from, from + len)
        &&& s.origin == Field((self.offset + from) as usize)
    }

    /// Splits the line into subject, property and object.
    ///
    /// The three fields are measured one after the other, and one byte is passed
    /// over behind the subject and one behind the property.
    pub fn parse(self) -> (triple: Result<(Str<'a>, Str<'a>, Str<'a>), ParseError>)
        requires
            self.offset + self.data@.len() <= usize::MAX,
        ensures
            match triple {
                Ok((subj, prop, objf)) => {
                    &&& scan_line(self.data@) == Ok::<(int, int, int), ParseError>(
                        (subj@.len() as int, prop@.len() as int, objf@.len() as int),
                    )
                    &&& self.is_piece(subj, 0, subj@.len() as int)
                    &&& self.is_piece(prop, subj@.len() as int + 1, prop@.len() as int)
                    &&& self.is_piece(objf, subj@.len() as int + prop@.len() + 2,
                        objf@.len() as int)
                    &&& subj@.len() + prop@.len() + objf@.len() + 2 <= self.data@.len()
                },
                Err(e) => scan_line(self.data@) == Err::<(int, int, int), ParseError>(e),
            },
    {
        let data = self.data;
        let n: usize = data.len();
        let subj: usize = match field_len(data) {
            Ok(len) => len,
            Err(e) => { return Err(e); },
        };
        if subj >= n {
            // Nothing is left for the property to start in.
            return Err(ParseError::MissingTerminator);
        }
        let prop_at: usize = subj + 1;
        let prop: usize = match field_len(&data[prop_at..n]) {
            Ok(len) => len,
            Err(e) => { return Err(e); },
        };
        if prop >= n - prop_at {
            return Err(ParseError::MissingTerminator);
        }
        let objf_at: usize = prop_at + prop + 1;
        let objf: usize = match field_len(&data[objf_at..n]) {
            Ok(len) => len,
            Err(e) => { return Err(e); },
        };
        Ok(
            (
                Str { bytes: &data[0..subj], origin: Field(self.offset) },
                Str { bytes: &data[prop_at..prop_at + prop], origin: Field(self.offset + prop_at) },
                Str { bytes: &data[objf_at..objf_at + objf], origin: Field(self.offset + objf_at) },
            ),
        )
    }
}


/// The three fields of a record, put together again with one tab between them.
pub open spec fn reformat(subj: Seq<u8>, prop: Seq<u8>, objf: Seq<u8>) -> Seq<u8> {
    subj + seq![TAB] + prop + seq![TAB] + objf
}

/// Where the two separators of a line are single tabs, the three fields that
/// `scan_line` measures, put together again with one tab between them, are the
/// record as the line holds it, byte for byte.
pub proof fn lemma_parse_reformat(data: Seq<u8>, s: int, p: int, o: int)
    requires
        scan_line(data) == Ok::<(int, int, int), ParseError>((s, p, o)),
        0 <= s < data.len() && data[s] == TAB,
        0 <= s + 1 + p < data.len() && data[s + 1 + p] == TAB,
    ensures
        0 <= s && 0 <= p && 0 <= o && s + p + o + 2 <= data.len(),
        reformat(
            data.subrange(0, s),
            data.subrange(s + 1, s + 1 + p),
            data.subrange(s + p + 2, s + p + 2 + o),
        ) == data.take(s + p + o + 2),
{
    lemma_scan_field_bounds(data);
    lemma_scan_field_bounds(rest(data, s + 1));
    lemma_scan_field_bounds(rest(data, s + p + 2));
    assert(reformat(
        data.subrange(0, s),
        data.subrange(s + 1, s + 1 + p),
        data.subrange(s + p + 2, s + p + 2 + o),
    ) =~= data.take(s + p + o + 2));
}

/// The lines of `data` from index `pos` on, each as the pair of its first index and
/// the index behind its last.
///
/// A line ends with its newline. What follows the last newline is a line too where
/// `tail` is set, and is left out where it is not.
pub open spec fn lines_from(data: Seq<u8>, pos: int, tail: bool) -> Seq<(int, int)>
    decreases data.len() - pos,
{
    if pos < 0 || pos >= data.len() {
        Seq::empty()
    } else {
        match first_index(data.skip(pos), NL, NL) {
            Some(i) => if i >= 0 {
                seq![(pos, pos + i + 1)] + lines_from(data, pos + i + 1, tail)
            } else {
                Seq::empty()
            },
            None => if tail {
                seq![(pos, data.len() as int)]
            } else {
                Seq::empty()
            },
        }
    }
}

/// Walks over the lines of a window of the buffer.
pub struct LineIter<'a> {
    /// The window.
    pub chunk: &'a [u8],
    /// The offset of the window in the buffer.
    pub base: usize,
    /// Where in the window the next line starts.
    pub pos: usize,
    /// Whether the first line is passed over.
    pub skip_first: bool,
    /// Whether what follows the last newline counts as a line.
    pub tail: bool,
}

impl<'a> LineIter<'a> {
    /// The next line starts within the window, and the offsets of the window fit a
    /// number.
    pub open spec fn wf(self) -> bool {
        &&& self.pos <= self.chunk@.len()
        &&& self.base + self.chunk@.len() <= usize::MAX
    }

    /// The lines that are still to come, by their indices in the window.
    pub open spec fn remaining(self) -> Seq<(int, int)> {
        let all = lines_from(self.chunk@, self.pos as int, self.tail);
        if self.skip_first && all.len() > 0 {
            all.skip(1)
        } else {
            all
        }
    }

    /// `line` is the part of the window between the two indices of `span`.
    pub open spec fn yields(self, line: InputLine<'a>, span: (int, int)) -> bool {
        &&& 0 <= span.0 < span.1 <= self.chunk@.len()
        &&& line.offset == self.base + span.0
        &&& line.data@ == self.chunk@.subrange(span.0, span.1)
    }

    /// An iterator over the lines of `chunk`, which lies `base` bytes into the buffer.
    pub fn new(chunk: &'a [u8], base: usize, skip_first: bool, tail: bool) -> (iter: LineIter<'a>)
        requires
            base + chunk@.len() <= usize::MAX,
        ensures
            iter == (LineIter { chunk, base, pos: 0, skip_first, tail }),
            iter.wf(),
    {
        LineIter { chunk, base, pos: 0, skip_first, tail }
    }

    /// The line at `pos`, whether or not the first line is to be passed over.
    fn step(&mut self) -> (line: Option<InputLine<'a>>)
        requires
            old(self).wf(),
        ensures
            final(self).wf(),
            final(self).chunk == old(self).chunk,
            final(self).base == old(self).base,
            final(self).tail == old(self).tail,
            final(self).skip_first == old(self).skip_first,
            ({
                let before = lines_from(old(self).chunk@, old(self).pos as int, old(self).tail);
                let after = lines_from(final(self).chunk@, final(self).pos as int,
                    final(self).tail);
                match line {
                    Some(l) => before.len() > 0 && old(self).yields(l, before[0]) && after
                        == before.skip(1),
                    None => before.len() == 0 && after.len() == 0,
                }
            }),
    {
        let n: usize = self.chunk.len();
        if self.pos >= n {
            return None;
        }
        let start: usize = self.pos;
        let chunk = self.chunk;
        proof {
            lemma_first_index(chunk@.skip(start as int), NL, NL);
        }
        let end: usize = match memchr::memchr(NL, &chunk[start..n]) {
            Some(i) => start + i + 1,
            None => {
                self.pos = n;
                if !self.tail {
                    return None;
                }
                n
            },
        };
        self.pos = end;
        proof {
            let before = lines_from(chunk@, start as int, self.tail);
            assert(before.skip(1) =~= lines_from(chunk@, end as int, self.tail));
        }
        Some(InputLine { offset: self.base + start, data: &chunk[start..end] })
    }

    /// The next line, or `None` when the window holds no further line.
    pub fn next(&mut self) -> (line: Option<InputLine<'a>>)
        requires
            old(self).wf(),
        ensures
            final(self).wf(),
            final(self).chunk == old(self).chunk,
            final(self).base == old(self).base,
            final(self).tail == old(self).tail,
            match line {
                Some(l) => old(self).remaining().len() > 0 && old(self).yields(
                    l,
                    old(self).remaining()[0],
                ) && final(self).remaining() == old(self).remaining().skip(1),
                None => old(self).remaining().len() == 0 && final(self).remaining().len() == 0,
            },
    {
        if self.skip_first {
            let _ = self.step();
            self.skip_first = false;
        }
        self.step()
    }
}

/// The input: one buffer of bytes that every `Str` and `Field` points into.
#[derive(Clone, Copy, Debug)]
pub struct Input<'a> {
    pub data: &'a [u8],
}

impl<'a> View for Input<'a> {
    type V = Seq<u8>;

    open spec fn view(&self) -> Seq<u8> {
        self.data@
    }
}

impl<'a> Input<'a> {
    /// `s` is the part of the buffer that starts at its origin, which lies in the
    /// buffer.
    pub open spec fn holds(self, s: Str<'a>) -> bool {
        &&& s.origin.0 < self@.len()
        &&& s.origin.0 + s@.len() <= self@.len()
        &&& self@.subrange(s.origin.0 as int, s.origin.0 + s@.len()) == s@
    }

    /// `s` is a field of the buffer: the buffer holds it, and the field that
    /// starts at its origin ends where it ends.
    pub open spec fn is_field(self, s: Str<'a>) -> bool {
        &&& self.holds(s)
        &&& scan_field(rest(self@, s.origin.0 as int)) == Ok::<int, ParseError>(s@.len() as int)
    }

    /// All three parts of a triple are fields of the buffer.
    pub open spec fn holds_triple(self, t: (Str<'a>, Str<'a>, Str<'a>)) -> bool {
        self.is_field(t.0) && self.is_field(t.1) && self.is_field(t.2)
    }

    /// What is parsed from a line of the buffer is held by the buffer.
    pub proof fn lemma_holds_parsed(self, line: InputLine<'a>, t: (Str<'a>, Str<'a>, Str<'a>))
        requires
            self.holds_line(line),
            scan_line(line.data@) == Ok::<(int, int, int), ParseError>(
                (t.0@.len() as int, t.1@.len() as int, t.2@.len() as int),
            ),
            line.is_piece(t.0, 0, t.0@.len() as int),
            line.is_piece(t.1, t.0@.len() as int + 1, t.1@.len() as int),
            line.is_piece(t.2, t.0@.len() as int + t.1@.len() + 2, t.2@.len() as int),
        ensures
            self.holds_triple(t),
    {
        let data = line.data@;
        let s = t.0@.len() as int;
        let p = t.1@.len() as int;
        let o = t.2@.len() as int;
        vstd::slice::axiom_spec_len(self.data);
        lemma_scan_field_bounds(data);
        lemma_scan_field_bounds(rest(data, s + 1));
        lemma_scan_field_bounds(rest(data, s + p + 2));
        assert(scan_field(data) == Ok::<int, ParseError>(s));
        assert(scan_field(rest(data, s + 1)) == Ok::<int, ParseError>(p));
        assert(scan_field(rest(data, s + p + 2)) == Ok::<int, ParseError>(o));
        assert(data.len() > 0);
        assert(rest(data, s + 1).len() > 0);
        assert(rest(data, s + p + 2).len() > 0);
        let off = line.offset as int;
        assert(self@.skip(off).take(data.len() as int) =~= data);
        lemma_scan_field_prefix(self@.skip(off), data.len() as int);
        assert(self@.skip(off + s + 1).take(data.len() - s - 1) =~= data.skip(s + 1));
        lemma_scan_field_prefix(self@.skip(off + s + 1), data.len() - s - 1);
        assert(self@.skip(off + s + p + 2).take(data.len() - s - p - 2) =~= data.skip(s + p + 2));
        lemma_scan_field_prefix(self@.skip(off + s + p + 2), data.len() - s - p - 2);
        assert(self@.subrange(off, off + data.len()).subrange(0, s)
            =~= self@.subrange(off, off + s));
        assert(self@.subrange(off, off + data.len()).subrange(s + 1, s + 1 + p) =~= self@.subrange(
            off + s + 1,
            off + s + 1 + p,
        ));
        assert(self@.subrange(off, off + data.len()).subrange(s + p + 2, s + p + 2 + o)
            =~= self@.subrange(off + s + p + 2, off + s + p + 2 + o));
    }

    /// A field starts at `field`: the bytes from there on open with one.
    pub open spec fn has_field(self, field: Field) -> bool {
        scan_field(rest(self@, field.0 as int)) is Ok
    }

    /// `line` is the part of the buffer that starts at its offset.
    pub open spec fn holds_line(self, line: InputLine<'a>) -> bool {
        &&& line.offset + line.data@.len() <= self@.len()
        &&& self@.subrange(line.offset as int, line.offset + line.data@.len()) == line.data@
    }

    /// Wraps a buffer.
    pub fn new(data: &'a [u8]) -> (input: Input<'a>)
        ensures
            input.data == data,
    {
        Input { data }
    }

    /// An iterator over all lines of the buffer. What follows the last newline is
    /// a line as well.
    pub fn iter_lines(&self) -> (iter: LineIter<'a>)
        ensures
            iter == (LineIter { chunk: self.data, base: 0, pos: 0, skip_first: false, tail: true }),
            iter.wf(),
    {
        proof {
            vstd::slice::axiom_spec_len(self.data);
        }
        LineIter::new(self.data, 0, false, true)
    }

    /// The length of the field that starts at `field`, if one does.
    pub fn field_end(&self, field: Field) -> (found: Result<usize, ParseError>)
        ensures
            match found {
                Ok(n) => scan_field(rest(self@, field.0 as int)) == Ok::<int, ParseError>(n as int)
                    && field.0 + n <= self@.len(),
                Err(e) => scan_field(rest(self@, field.0 as int)) == Err::<int, ParseError>(e),
            },
    {
        let n: usize = self.data.len();
        if field.0 > n {
            return Err(ParseError::MissingTerminator);
        }
        field_len(&self.data[field.0..n])
    }

    /// The bytes of the field that starts at `field`.
    pub fn extract_str(&self, field: Field) -> (s: Str<'a>)
        requires
            self.has_field(field),
        ensures
            s.origin == field,
            self.holds(s),
            scan_field(rest(self@, field.0 as int)) == Ok::<int, ParseError>(s@.len() as int),
    {
        proof {
            vstd::slice::axiom_spec_len(self.data);
            lemma_scan_field_bounds(rest(self@, field.0 as int));
        }
        match self.field_end(field) {
            Ok(n) => Str { bytes: &self.data[field.0..field.0 + n], origin: field },
            Err(_) => Str { bytes: &self.data[0..0], origin: field },
        }
    }

    /// The place in the buffer where `s` starts.
    pub fn extract_field(&self, s: Str<'a>) -> (field: Field)
        requires
            self.holds(s),
        ensures
            field == s.origin,
    {
        s.origin
    }
}

} // verus!
