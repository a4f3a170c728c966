//! Text that is set in from the margin.

use vstd::prelude::*;
use vstd::string::*;

verus! {

/// A value, and what each of its lines is set in by.
pub struct Indented<'s, A> {
    pub value: A,
    pub indent: &'s str,
}

/// The value, set in by four spaces.
pub fn indented<A>(value: A) -> (set_in: Indented<'static, A>)
    ensures
        set_in.value == value,
        set_in.indent@ == "    "@,
{
    indented_by(value, "    ")
}

/// The value, set in by `indent`.
pub fn indented_by<A>(value: A, indent: &str) -> (set_in: Indented<'_, A>)
    ensures
        set_in.value == value,
        set_in.indent == indent,
{
    Indented { value, indent }
}

/// The text with `indent` behind each of its newlines.
pub open spec fn set_in(text: Seq<char>, indent: Seq<char>) -> Seq<char>
    decreases text.len(),
{
    if text.len() == 0 {
        Seq::empty()
    } else if text.last() == '\n' {
        set_in(text.drop_last(), indent).push('\n') + indent
    } else {
        set_in(text.drop_last(), indent).push(text.last())
    }
}

/// Setting in a run of characters without a newline changes nothing.
pub proof fn lemma_set_in_plain(text: Seq<char>, indent: Seq<char>, from: int, to: int)
    requires
        0 <= from <= to <= text.len(),
        forall|k: int| from <= k < to ==> text[k] != '\n',
    ensures
        set_in(text.take(to), indent) == set_in(text.take(from), indent) + text.subrange(from, to),
    decreases to - from,
{
    if from == to {
        assert(set_in(text.take(from), indent) + text.subrange(from, to) =~= set_in(
            text.take(from),
            indent,
        ));
    } else {
        lemma_set_in_plain(text, indent, from, to - 1);
        assert(text.take(to).drop_last() =~= text.take(to - 1));
        assert((set_in(text.take(from), indent) + text.subrange(from, to - 1)).push(text[to - 1])
            =~= set_in(text.take(from), indent) + text.subrange(from, to));
    }
}

impl<'s> Indented<'s, String> {
    /// What `to_text` makes of the value.
    pub open spec fn text(self) -> Seq<char> {
        set_in(self.indent@, self.indent@) + set_in(self.value@, self.indent@)
    }

    /// The value as text: the indent, and the value with the indent behind each
    /// of its newlines. Newlines of the indent itself are treated alike.
    pub fn to_text(&self) -> (text: String)
        ensures
            text@ == self.text(),
    {
        let mut text = String::new();
        append_set_in(&mut text, self.indent, self.indent);
        append_set_in(&mut text, self.value.as_str(), self.indent);
        text
    }
}

/// Puts `piece` behind `text`, with `indent` behind each newline of `piece`.
pub fn append_set_in(text: &mut String, piece: &str, indent: &str)
    ensures
        final(text)@ == old(text)@ + set_in(piece@, indent@),
{
    let n: usize = piece.unicode_len();
    let ghost head = text@;
    let mut start: usize = 0;
    let mut i: usize = 0;
    assert(piece@.take(0) =~= Seq::<char>::empty());
    assert(head + Seq::<char>::empty() =~= head);
    while i < n
        invariant
            start <= i <= n,
            n == piece@.len(),
            forall|k: int| start <= k < i ==> piece@[k] != '\n',
            text@ == head + set_in(piece@.take(start as int), indent@),
        decreases n - i,
    {
        if piece.get_char(i) == '\n' {
            let ghost before = text@;
            text.append(piece.substring_char(start, i));
            text.append("\n");
            text.append(indent);
            proof {
                reveal_strlit("\n");
                lemma_set_in_plain(piece@, indent@, start as int, i as int);
                assert(piece@.take(i + 1).drop_last() =~= piece@.take(i as int));
                assert("\n"@ =~= seq!['\n']);
                assert(before + piece@.subrange(start as int, i as int) + seq!['\n'] + indent@
                    =~= head + ((set_in(piece@.take(start as int), indent@) + piece@.subrange(
                    start as int,
                    i as int,
                )).push('\n') + indent@));
            }
            start = i + 1;
        }
        i += 1;
    }
    let ghost before = text@;
    text.append(piece.substring_char(start, n));
    proof {
        lemma_set_in_plain(piece@, indent@, start as int, n as int);
        assert(piece@.take(n as int) =~= piece@);
        assert(before + piece@.subrange(start as int, n as int) =~= head + (set_in(
            piece@.take(start as int),
            indent@,
        ) + piece@.subrange(start as int, n as int)));
    }
}

} // verus!
