//! Finding one text within another, and the pieces between its occurrences.

use vstd::prelude::*;
use vstd::string::*;
use crate::text::chars::chars_of;

verus! {

/// `needle` stands in `hay` at position `at`.
pub open spec fn occurs_at(hay: Seq<char>, needle: Seq<char>, at: int) -> bool {
    0 <= at && at + needle.len() <= hay.len() && hay.subrange(at, at + needle.len()) == needle
}

/// The first position at or behind `from` at which `needle` stands in `hay`.
pub open spec fn first_occurrence(hay: Seq<char>, needle: Seq<char>, from: int) -> Option<int>
    decreases hay.len() - from + 1,
{
    if from < 0 || from + needle.len() > hay.len() {
        None
    } else if occurs_at(hay, needle, from) {
        Some(from)
    } else {
        first_occurrence(hay, needle, from + 1)
    }
}

/// The second of the pieces into which the occurrences of `sep` cut `text`: what stands
/// between the first occurrence and the next one, or the end.  `None` where `sep` does
/// not occur.  An empty `sep` cuts between all characters, so the second piece is the
/// first character.
pub open spec fn second_piece(text: Seq<char>, sep: Seq<char>) -> Option<Seq<char>> {
    if sep.len() == 0 {
        if text.len() == 0 {
            Some(text)
        } else {
            Some(text.take(1))
        }
    } else {
        match first_occurrence(text, sep, 0) {
            None => None,
            Some(first) => {
                let start = first + sep.len();
                match first_occurrence(text, sep, start) {
                    None => Some(text.skip(start)),
                    Some(next) => Some(text.subrange(start, next)),
                }
            },
        }
    }
}

/// The first of the pieces into which the occurrences of `sep` cut `text`: what stands
/// before the first occurrence, or all of `text` where `sep` does not occur.
pub open spec fn first_piece(text: Seq<char>, sep: Seq<char>) -> Seq<char> {
    match first_occurrence(text, sep, 0) {
        None => text,
        Some(first) => text.take(first),
    }
}

/// The first occurrence is an occurrence, and none lies between `from` and it.
pub proof fn lemma_first_occurrence(hay: Seq<char>, needle: Seq<char>, from: int)
    requires
        0 <= from,
    ensures
        match first_occurrence(hay, needle, from) {
            Some(at) => from <= at && occurs_at(hay, needle, at) && forall|k: int|
                from <= k < at ==> !occurs_at(hay, needle, k),
            None => forall|k: int| from <= k ==> !occurs_at(hay, needle, k),
        },
    decreases hay.len() - from + 1,
{
    if from + needle.len() > hay.len() {
    } else if occurs_at(hay, needle, from) {
    } else {
        lemma_first_occurrence(hay, needle, from + 1);
    }
}

/// Whether `needle` stands in `hay` at position `at`.
fn stands_at(hay: &Vec<char>, needle: &Vec<char>, at: usize) -> (r: bool)
    requires
        at + needle.len() <= hay.len(),
    ensures
        r == occurs_at(hay@, needle@, at as int),
{
    let m = needle.len();
    let mut k: usize = 0;
    while k < m
        invariant
            k <= m,
            m == needle.len(),
            at + m <= hay.len(),
            hay@.subrange(at as int, at + k) == needle@.take(k as int),
        decreases m - k,
    {
        if hay[at + k] != needle[k] {
            assert(hay@.subrange(at as int, at + m)[k as int] != needle@[k as int]);
            return false;
        }
        assert(hay@.subrange(at as int, at + k + 1) == hay@.subrange(at as int, at + k).push(
            hay@[at + k],
        ));
        assert(needle@.take(k + 1) == needle@.take(k as int).push(needle@[k as int]));
        k = k + 1;
    }
    assert(needle@.take(m as int) == needle@);
    true
}

/// The first position at or behind `from` at which `needle` stands in `hay`.
pub fn find_from(hay: &Vec<char>, needle: &Vec<char>, from: usize) -> (r: Option<usize>)
    ensures
        match r {
            Some(at) => first_occurrence(hay@, needle@, from as int) == Some(at as int),
            None => first_occurrence(hay@, needle@, from as int) is None,
        },
{
    let n = hay.len();
    let m = needle.len();
    if m > n || from > n - m {
        return None;
    }
    let last = n - m;
    let mut at: usize = from;
    loop
        invariant
            from <= at <= last,
            last == n - m,
            m <= n,
            n == hay.len(),
            m == needle.len(),
            first_occurrence(hay@, needle@, from as int) == first_occurrence(
                hay@,
                needle@,
                at as int,
            ),
        decreases last - at,
    {
        if stands_at(hay, needle, at) {
            return Some(at);
        }
        if at == last {
            assert(first_occurrence(hay@, needle@, at + 1) is None);
            return None;
        }
        at = at + 1;
    }
}

/// Whether two string slices hold the same text.
pub fn same_text(a: &str, b: &str) -> (r: bool)
    ensures
        r == (a@ == b@),
{
    let x = chars_of(a);
    let y = chars_of(b);
    if x.len() != y.len() {
        return false;
    }
    let r = stands_at(&x, &y, 0);
    assert(x@.subrange(0, x@.len() as int) == x@);
    r
}

/// What stands in `text` before the first occurrence of `sep`; all of `text` where `sep`
/// does not occur.
pub fn piece_before<'a>(text: &'a str, sep: &str) -> (r: &'a str)
    ensures
        r@ == first_piece(text@, sep@),
{
    let hay = chars_of(text);
    let needle = chars_of(sep);
    match find_from(&hay, &needle, 0) {
        None => text,
        Some(first) => {
            proof {
                lemma_first_occurrence(text@, sep@, 0);
            }
            text.substring_char(0, first)
        },
    }
}

/// What stands in `text` between the first occurrence of `sep` and the next one, or the
/// end of `text`.  `None` where `sep` does not occur.
pub fn piece_after_first<'a>(text: &'a str, sep: &str) -> (r: Option<&'a str>)
    ensures
        match r {
            Some(piece) => second_piece(text@, sep@) == Some(piece@),
            None => second_piece(text@, sep@) is None,
        },
{
    let hay = chars_of(text);
    let needle = chars_of(sep);
    let n = hay.len();
    let m = needle.len();
    if m == 0 {
        if n == 0 {
            return Some(text);
        }
        return Some(text.substring_char(0, 1));
    }
    match find_from(&hay, &needle, 0) {
        None => None,
        Some(first) => {
            proof {
                lemma_first_occurrence(text@, sep@, 0);
            }
            let start = first + m;
            match find_from(&hay, &needle, start) {
                None => {
                    let piece = text.substring_char(start, n);
                    assert(text@.subrange(start as int, n as int) == text@.skip(start as int));
                    Some(piece)
                },
                Some(next) => {
                    proof {
                        lemma_first_occurrence(text@, sep@, start as int);
                    }
                    Some(text.substring_char(start, next))
                },
            }
        },
    }
}

} // verus!
