//! Splitting text into lines, and writing lines back as text.

use vstd::prelude::*;
use vstd::string::*;
use crate::text::chars::chars_of;
use crate::text::words::views;

verus! {

/// The number of characters before the first line feed of `s`.
pub open spec fn line_len(s: Seq<char>) -> nat
    decreases s.len(),
{
    if s.len() > 0 && s[0] != '\n' {
        1 + line_len(s.drop_first())
    } else {
        0
    }
}

/// `line` without one trailing carriage return.
pub open spec fn without_cr(line: Seq<char>) -> Seq<char> {
    if line.len() > 0 && line.last() == '\r' {
        line.drop_last()
    } else {
        line
    }
}

/// The lines of `s`.  A line ends at a line feed, or at a carriage return directly before
/// a line feed; neither belongs to the line.  Text after the last line feed is a line of
/// its own unless it is empty, and there a trailing carriage return stays.
pub open spec fn lines(s: Seq<char>) -> Seq<Seq<char>>
    decreases s.len(),
    via lines_terminates
{
    if s.len() == 0 {
        seq![]
    } else {
        let n = line_len(s) as int;
        if n == s.len() {
            seq![s]
        } else {
            seq![without_cr(s.take(n))] + lines(s.skip(n + 1))
        }
    }
}

#[via_fn]
proof fn lines_terminates(s: Seq<char>) {
    lemma_line_len_bounds(s);
}

/// `lines` written one after the other, each followed by a line feed.
pub open spec fn unlines(lines: Seq<Seq<char>>) -> Seq<char>
    decreases lines.len(),
{
    if lines.len() == 0 {
        Seq::empty()
    } else {
        unlines(lines.drop_last()) + lines.last() + seq!['\n']
    }
}

/// A line that survives being written and split again: it holds no line feed and does
/// not end in a carriage return.
pub open spec fn is_plain_line(line: Seq<char>) -> bool {
    &&& forall|i: int| 0 <= i < line.len() ==> #[trigger] line[i] != '\n'
    &&& line.len() > 0 ==> line.last() != '\r'
}

/// A line ends within the text.
pub proof fn lemma_line_len_bounds(s: Seq<char>)
    ensures
        line_len(s) <= s.len(),
    decreases s.len(),
{
    if s.len() > 0 && s[0] != '\n' {
        lemma_line_len_bounds(s.drop_first());
    }
}

/// `line_len` is the position of the first line feed, or the length where there is none.
pub proof fn lemma_line_len_is(s: Seq<char>, n: int)
    requires
        0 <= n <= s.len(),
        forall|k: int| 0 <= k < n ==> #[trigger] s[k] != '\n',
        n == s.len() || s[n] == '\n',
    ensures
        line_len(s) == n,
    decreases n,
{
    if n > 0 {
        let t = s.drop_first();
        assert forall|k: int| 0 <= k < n - 1 implies #[trigger] t[k] != '\n' by {
            assert(t[k] == s[k + 1]);
        }
        lemma_line_len_is(t, n - 1);
    }
}

/// No line holds a line feed.
pub proof fn lemma_lines_hold_no_line_feed(s: Seq<char>)
    ensures
        forall|i: int, k: int|
            0 <= i < lines(s).len() && 0 <= k < lines(s)[i].len() ==> #[trigger] lines(s)[i][k]
                != '\n',
    decreases s.len(),
{
    if s.len() > 0 {
        let n = line_len(s) as int;
        lemma_line_len_bounds(s);
        lemma_line_len_prefix(s);
        if n < s.len() {
            let rest = lines(s.skip(n + 1));
            lemma_lines_hold_no_line_feed(s.skip(n + 1));
            let first = without_cr(s.take(n));
            assert forall|i: int, k: int|
                0 <= i < lines(s).len() && 0 <= k < lines(s)[i].len() implies #[trigger] lines(
                s,
            )[i][k] != '\n' by {
                if i == 0 {
                    assert(lines(s)[0] == first);
                    assert(first[k] == s[k]);
                } else {
                    assert(lines(s)[i] == rest[i - 1]);
                }
            }
        }
    }
}

/// No character before `line_len(s)` is a line feed.
pub proof fn lemma_line_len_prefix(s: Seq<char>)
    ensures
        forall|k: int| 0 <= k < line_len(s) ==> #[trigger] s[k] != '\n',
    decreases s.len(),
{
    if s.len() > 0 && s[0] != '\n' {
        let t = s.drop_first();
        lemma_line_len_prefix(t);
        lemma_line_len_bounds(s);
        assert forall|k: int| 0 <= k < line_len(s) implies #[trigger] s[k] != '\n' by {
            if k > 0 {
                assert(s[k] == t[k - 1]);
            }
        }
    }
}

/// The text of some lines starts with the first line and a line feed.
pub proof fn lemma_unlines_front(ls: Seq<Seq<char>>)
    requires
        ls.len() > 0,
    ensures
        unlines(ls) == ls[0] + seq!['\n'] + unlines(ls.drop_first()),
    decreases ls.len(),
{
    if ls.len() == 1 {
        assert(ls.drop_last().len() == 0);
        assert(ls.drop_first().len() == 0);
        assert(unlines(ls.drop_last()) + ls.last() == ls[0]);
        assert(ls[0] + seq!['\n'] + unlines(ls.drop_first()) == ls[0] + seq!['\n']);
    } else {
        let front = ls.drop_last();
        lemma_unlines_front(front);
        assert(ls.drop_first().drop_last() == front.drop_first());
        assert(front[0] == ls[0]);
        assert(ls.drop_first().last() == ls.last());
        assert((ls[0] + seq!['\n'] + unlines(front.drop_first())) + ls.last() + seq!['\n']
            == ls[0] + seq!['\n'] + (unlines(front.drop_first()) + ls.last() + seq!['\n']));
    }
}

/// Writing plain lines and splitting the text again gives the lines back.
pub proof fn lemma_lines_of_unlines(ls: Seq<Seq<char>>)
    requires
        forall|i: int| 0 <= i < ls.len() ==> is_plain_line(#[trigger] ls[i]),
    ensures
        lines(unlines(ls)) == ls,
    decreases ls.len(),
{
    if ls.len() > 0 {
        let first = ls[0];
        let tail = ls.drop_first();
        let text = unlines(ls);
        lemma_unlines_front(ls);
        assert(is_plain_line(first));
        assert forall|i: int| 0 <= i < tail.len() implies is_plain_line(#[trigger] tail[i]) by {
            assert(tail[i] == ls[i + 1]);
        }
        lemma_lines_of_unlines(tail);
        let n = first.len() as int;
        assert(text[n] == '\n');
        assert forall|k: int| 0 <= k < n implies #[trigger] text[k] != '\n' by {
            assert(text[k] == first[k]);
        }
        lemma_line_len_is(text, n);
        assert(text.take(n) == first);
        assert(text.skip(n + 1) == unlines(tail));
        assert(without_cr(first) == first);
        assert(seq![first] + tail == ls);
    }
}

/// Splits `s` into its lines, without their line endings.
pub fn split_lines(s: &str) -> (out: Vec<String>)
    ensures
        views(out@) == lines(s@),
{
    let cs = chars_of(s);
    let n = cs.len();
    let mut out: Vec<String> = Vec::new();
    let mut i: usize = 0;
    assert(s@.skip(0) == s@);
    while i < n
        invariant
            i <= n,
            n == cs.len(),
            cs@ == s@,
            lines(s@) == views(out@) + lines(s@.skip(i as int)),
        decreases n - i,
    {
        let ghost rest = s@.skip(i as int);
        let ghost before = views(out@);
        let start = i;
        let mut j: usize = i;
        while j < n && cs[j] != '\n'
            invariant
                start <= j <= n,
                n == cs.len(),
                cs@ == s@,
                forall|k: int| start <= k < j ==> #[trigger] s@[k] != '\n',
            decreases n - j,
        {
            j = j + 1;
        }
        proof {
            lemma_line_len_is(rest, j - start);
            assert(rest.take(j - start) == s@.subrange(start as int, j as int));
        }
        if j == n {
            let line = String::from_str(s.substring_char(start, j));
            proof {
                assert(s@.subrange(start as int, n as int) == rest);
                assert(views(out@.push(line)) == before.push(line@));
                assert(before + seq![rest] == before.push(rest));
                assert(lines(s@.skip(n as int)) == Seq::<Seq<char>>::empty());
            }
            out.push(line);
            i = n;
        } else {
            let end = if j > start && cs[j - 1] == '\r' {
                j - 1
            } else {
                j
            };
            let line = String::from_str(s.substring_char(start, end));
            proof {
                let whole = s@.subrange(start as int, j as int);
                assert(line@ == without_cr(whole)) by {
                    if j > start {
                        assert(whole.last() == s@[j - 1]);
                        assert(whole.drop_last() == s@.subrange(start as int, j - 1));
                    }
                }
                assert(rest.skip(j - start + 1) == s@.skip(j + 1));
                assert(views(out@.push(line)) == before.push(line@));
                assert(before + (seq![line@] + lines(s@.skip(j + 1))) == before.push(line@) + lines(
                    s@.skip(j + 1),
                ));
            }
            out.push(line);
            i = j + 1;
        }
    }
    assert(lines(s@.skip(n as int)) == Seq::<Seq<char>>::empty());
    out
}

/// Writes `lines` one after the other, each followed by a line feed.
pub fn write_lines(lines: &Vec<String>) -> (out: String)
    ensures
        out@ == unlines(views(lines@)),
{
    let mut out = String::new();
    let n = lines.len();
    let mut i: usize = 0;
    while i < n
        invariant
            i <= n,
            n == lines.len(),
            out@ == unlines(views(lines@).take(i as int)),
        decreases n - i,
    {
        let ghost done = views(lines@).take(i as int);
        let ghost next = views(lines@).take(i + 1);
        assert(next.drop_last() == done);
        assert(next.last() == lines@[i as int]@);
        out.append(lines[i].as_str());
        proof {
            reveal_strlit("\n");
            assert("\n"@ == seq!['\n']);
        }
        out.append("\n");
        i = i + 1;
    }
    assert(views(lines@).take(n as int) == views(lines@));
    out
}

} // verus!
