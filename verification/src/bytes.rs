//! Byte searches, and what they find.

use vstd::prelude::*;

verus! {

/// Line terminator.
pub const NL: u8 = 0x0a;

/// Field separator.
pub const TAB: u8 = 0x09;

/// The other byte that ends an unquoted field.
pub const SPACE: u8 = 0x20;

/// Opens and closes a quoted field.
pub const DQUOTE: u8 = 0x22;

/// Neither `a` nor `b` occurs in `s`.
pub open spec fn absent(s: Seq<u8>, a: u8, b: u8) -> bool {
    forall|j: int| 0 <= j < s.len() ==> s[j] != a && s[j] != b
}

/// `s` holds `a` or `b` at index `i` and neither of them before it.
pub open spec fn is_first(s: Seq<u8>, i: int, a: u8, b: u8) -> bool {
    &&& 0 <= i < s.len()
    &&& (s[i] == a || s[i] == b)
    &&& absent(s.take(i), a, b)
}

/// `s` holds `a` at index `i` and nowhere behind it.
pub open spec fn is_last(s: Seq<u8>, i: int, a: u8) -> bool {
    &&& 0 <= i < s.len()
    &&& s[i] == a
    &&& absent(s.skip(i + 1), a, a)
}

/// The index of the first `a` or `b` in `s`.
pub open spec fn first_index(s: Seq<u8>, a: u8, b: u8) -> Option<int> {
    if exists|i: int| is_first(s, i, a, b) {
        Some(choose|i: int| is_first(s, i, a, b))
    } else {
        None
    }
}

/// The index of the last `a` in `s`.
pub open spec fn last_index(s: Seq<u8>, a: u8) -> Option<int> {
    if exists|i: int| is_last(s, i, a) {
        Some(choose|i: int| is_last(s, i, a))
    } else {
        None
    }
}

/// At most one index is the first.
pub proof fn lemma_first_unique(s: Seq<u8>, i: int, j: int, a: u8, b: u8)
    requires
        is_first(s, i, a, b),
        is_first(s, j, a, b),
    ensures
        i == j,
{
    if i < j {
        assert(s.take(j)[i] == s[i]);
    } else if j < i {
        assert(s.take(i)[j] == s[j]);
    }
}

/// At most one index is the last.
pub proof fn lemma_last_unique(s: Seq<u8>, i: int, j: int, a: u8)
    requires
        is_last(s, i, a),
        is_last(s, j, a),
    ensures
        i == j,
{
    if i < j {
        assert(s.skip(i + 1)[j - i - 1] == s[j]);
    } else if j < i {
        assert(s.skip(j + 1)[i - j - 1] == s[i]);
    }
}

/// `first_index` finds an index exactly when one is the first.
pub proof fn lemma_first_index(s: Seq<u8>, a: u8, b: u8)
    ensures
        match first_index(s, a, b) {
            Some(i) => is_first(s, i, a, b),
            None => absent(s, a, b),
        },
        forall|i: int| is_first(s, i, a, b) ==> first_index(s, a, b) == Some(i),
    decreases s.len(),
{
    assert forall|i: int| is_first(s, i, a, b) implies first_index(s, a, b) == Some(i) by {
        let c = choose|c: int| is_first(s, c, a, b);
        lemma_first_unique(s, i, c, a, b);
    }
    if first_index(s, a, b).is_none() {
        if !absent(s, a, b) {
            let j = choose|j: int| 0 <= j < s.len() && !(s[j] != a && s[j] != b);
            lemma_some_first(s, j, a, b);
        }
    }
}

/// Where `a` or `b` occurs at all, one occurrence is the first.
pub proof fn lemma_some_first(s: Seq<u8>, j: int, a: u8, b: u8)
    requires
        0 <= j < s.len(),
        s[j] == a || s[j] == b,
    ensures
        exists|i: int| 0 <= i <= j && is_first(s, i, a, b),
    decreases j,
{
    if absent(s.take(j), a, b) {
        assert(is_first(s, j, a, b));
    } else {
        let k = choose|k: int| 0 <= k < s.take(j).len() && !(s.take(j)[k] != a
            && s.take(j)[k] != b);
        assert(s.take(j)[k] == s[k]);
        lemma_some_first(s, k, a, b);
    }
}

/// Where `a` occurs at all, one occurrence is the last.
pub proof fn lemma_some_last(s: Seq<u8>, j: int, a: u8)
    requires
        0 <= j < s.len(),
        s[j] == a,
    ensures
        exists|i: int| j <= i < s.len() && is_last(s, i, a),
    decreases s.len() - j,
{
    if absent(s.skip(j + 1), a, a) {
        assert(is_last(s, j, a));
    } else {
        let t = s.skip(j + 1);
        let k = choose|k: int| 0 <= k < t.len() && !(t[k] != a && t[k] != a);
        assert(t[k] == s[j + 1 + k]);
        lemma_some_last(s, j + 1 + k, a);
    }
}

/// `last_index` finds an index exactly when one is the last.
pub proof fn lemma_last_index(s: Seq<u8>, a: u8)
    ensures
        match last_index(s, a) {
            Some(i) => is_last(s, i, a),
            None => absent(s, a, a),
        },
        forall|i: int| is_last(s, i, a) ==> last_index(s, a) == Some(i),
{
    assert forall|i: int| is_last(s, i, a) implies last_index(s, a) == Some(i) by {
        let c = choose|c: int| is_last(s, c, a);
        lemma_last_unique(s, i, c, a);
    }
    if last_index(s, a).is_none() {
        if !absent(s, a, a) {
            let j = choose|j: int| 0 <= j < s.len() && !(s[j] != a && s[j] != a);
            lemma_some_last(s, j, a);
        }
    }
}

/// `memchr::memchr` returns the index of the first byte of `haystack` equal to
/// `needle`, and `None` when no byte is.
pub assume_specification[ memchr::memchr ](needle: u8, haystack: &[u8]) -> (found: Option<usize>)
    ensures
        match found {
            Some(i) => is_first(haystack@, i as int, needle, needle),
            None => absent(haystack@, needle, needle),
        },
;

/// `memchr::memrchr` returns the index of the last byte of `haystack` equal to
/// `needle`, and `None` when no byte is.
pub assume_specification[ memchr::memrchr ](needle: u8, haystack: &[u8]) -> (found: Option<usize>)
    ensures
        match found {
            Some(i) => is_last(haystack@, i as int, needle),
            None => absent(haystack@, needle, needle),
        },
;

/// `memchr::memchr2` returns the index of the first byte of `haystack` equal to
/// `needle1` or to `needle2`, and `None` when no byte is.
pub assume_specification[ memchr::memchr2 ](needle1: u8, needle2: u8, haystack: &[u8]) -> (found:
    Option<usize>)
    ensures
        match found {
            Some(i) => is_first(haystack@, i as int, needle1, needle2),
            None => absent(haystack@, needle1, needle2),
        },
;

} // verus!
