//! Splitting text into whitespace-separated words, and joining words with a separator.

use vstd::prelude::*;
use vstd::string::*;
use crate::text::chars::{chars_of, is_whitespace, is_whitespace_char};

verus! {

/// The number of characters before the first whitespace of `s`.
pub open spec fn word_len(s: Seq<char>) -> nat
    decreases s.len(),
{
    if s.len() > 0 && !is_whitespace(s[0]) {
        1 + word_len(s.drop_first())
    } else {
        0
    }
}

/// The maximal runs of non-whitespace characters of `s`, from left to right.
pub open spec fn words(s: Seq<char>) -> Seq<Seq<char>>
    decreases s.len(),
    via words_terminates
{
    if s.len() == 0 {
        seq![]
    } else if is_whitespace(s[0]) {
        words(s.drop_first())
    } else {
        let n = word_len(s) as int;
        seq![s.take(n)] + words(s.skip(n))
    }
}

#[via_fn]
proof fn words_terminates(s: Seq<char>) {
    lemma_word_len_bounds(s);
}

/// `parts` written one after the other with `sep` between neighbours.
pub open spec fn join(parts: Seq<Seq<char>>, sep: Seq<char>) -> Seq<char>
    decreases parts.len(),
{
    if parts.len() == 0 {
        Seq::empty()
    } else if parts.len() == 1 {
        parts[0]
    } else {
        join(parts.drop_last(), sep) + sep + parts.last()
    }
}

/// The views of a sequence of strings.
pub open spec fn views(v: Seq<String>) -> Seq<Seq<char>> {
    v.map_values(|s: String| s@)
}

/// A word: not empty, and free of whitespace.
pub open spec fn is_word(w: Seq<char>) -> bool {
    w.len() > 0 && forall|i: int| 0 <= i < w.len() ==> !is_whitespace(#[trigger] w[i])
}

/// A word ends within the text, and starts with its first character if that is no whitespace.
pub proof fn lemma_word_len_bounds(s: Seq<char>)
    ensures
        word_len(s) <= s.len(),
        s.len() > 0 && !is_whitespace(s[0]) ==> word_len(s) > 0,
    decreases s.len(),
{
    if s.len() > 0 && !is_whitespace(s[0]) {
        lemma_word_len_bounds(s.drop_first());
    }
}

/// `word_len` is the position of the first whitespace, or the length where there is none.
pub proof fn lemma_word_len_is(s: Seq<char>, n: int)
    requires
        0 <= n <= s.len(),
        forall|k: int| 0 <= k < n ==> !is_whitespace(#[trigger] s[k]),
        n == s.len() || is_whitespace(s[n]),
    ensures
        word_len(s) == n,
    decreases n,
{
    if n > 0 {
        let t = s.drop_first();
        assert forall|k: int| 0 <= k < n - 1 implies !is_whitespace(#[trigger] t[k]) by {
            assert(t[k] == s[k + 1]);
        }
        lemma_word_len_is(t, n - 1);
    }
}

/// Every element of `words(s)` is a word.
pub proof fn lemma_words_are_words(s: Seq<char>)
    ensures
        forall|i: int| 0 <= i < words(s).len() ==> is_word(#[trigger] words(s)[i]),
    decreases s.len(),
{
    if s.len() == 0 {
        assert(words(s).len() == 0);
    } else if is_whitespace(s[0]) {
        lemma_words_are_words(s.drop_first());
        assert(words(s) == words(s.drop_first()));
    } else {
        let n = word_len(s) as int;
        lemma_word_len_bounds(s);
        lemma_word_len_prefix(s);
        lemma_words_are_words(s.skip(n));
        assert(is_word(s.take(n)));
        let tail = words(s.skip(n));
        assert forall|i: int| 0 <= i < words(s).len() implies is_word(#[trigger] words(s)[i]) by {
            if i > 0 {
                assert(words(s)[i] == tail[i - 1]);
            }
        }
    }
}

/// No character before `word_len(s)` is whitespace.
pub proof fn lemma_word_len_prefix(s: Seq<char>)
    ensures
        forall|k: int| 0 <= k < word_len(s) ==> !is_whitespace(#[trigger] s[k]),
        word_len(s) < s.len() ==> is_whitespace(s[word_len(s) as int]),
    decreases s.len(),
{
    if s.len() > 0 && !is_whitespace(s[0]) {
        let t = s.drop_first();
        lemma_word_len_prefix(t);
        lemma_word_len_bounds(s);
        assert forall|k: int| 0 <= k < word_len(s) implies !is_whitespace(#[trigger] s[k]) by {
            if k > 0 {
                assert(s[k] == t[k - 1]);
            }
        }
        if word_len(s) < s.len() {
            assert(s[word_len(s) as int] == t[word_len(t) as int]);
        }
    }
}

/// A word is its own only word.
pub proof fn lemma_words_of_word(w: Seq<char>)
    requires
        is_word(w),
    ensures
        words(w) == seq![w],
{
    lemma_word_len_is(w, w.len() as int);
    assert(w.take(w.len() as int) == w);
    assert(w.skip(w.len() as int).len() == 0);
    assert(words(w.skip(w.len() as int)).len() == 0);
}

/// Whitespace ends a word wherever it stands: what follows the whitespace does not
/// change where the first word of `a` ends.
proof fn lemma_word_len_before_space(a: Seq<char>, b: Seq<char>)
    requires
        b.len() > 0 && is_whitespace(b[0]),
    ensures
        word_len(a + b) == word_len(a),
    decreases a.len(),
{
    if a.len() > 0 && !is_whitespace(a[0]) {
        assert((a + b).drop_first() == a.drop_first() + b);
        lemma_word_len_before_space(a.drop_first(), b);
    } else if a.len() == 0 {
        assert(a + b == b);
    }
}

/// A word that is written behind a text and a space is one more word of the text.
pub proof fn lemma_words_push(a: Seq<char>, w: Seq<char>)
    requires
        is_word(w),
    ensures
        words(a + seq![' '] + w) == words(a).push(w),
    decreases a.len(),
{
    let tail = seq![' '] + w;
    let whole = a + seq![' '] + w;
    assert(whole == a + tail);
    if a.len() == 0 {
        assert(whole == tail);
        assert(tail.drop_first() == w);
        lemma_words_of_word(w);
        assert(words(a).len() == 0);
    } else if is_whitespace(a[0]) {
        assert(whole.drop_first() == a.drop_first() + seq![' '] + w);
        lemma_words_push(a.drop_first(), w);
    } else {
        let n = word_len(a) as int;
        lemma_word_len_bounds(a);
        lemma_word_len_before_space(a, tail);
        assert(whole.take(n) == a.take(n));
        assert(whole.skip(n) == a.skip(n) + seq![' '] + w);
        lemma_words_push(a.skip(n), w);
        assert(seq![a.take(n)] + words(a.skip(n)).push(w) == (seq![a.take(n)] + words(
            a.skip(n),
        )).push(w));
    }
}

/// Words that are joined with single spaces, after one more space, are the words of the
/// text that this gives.
pub proof fn lemma_words_of_joined(ws: Seq<Seq<char>>)
    requires
        forall|i: int| 0 <= i < ws.len() ==> is_word(#[trigger] ws[i]),
    ensures
        words(seq![' '] + join(ws, seq![' '])) == ws,
    decreases ws.len(),
{
    let sp = seq![' '];
    if ws.len() == 0 {
        assert(sp + join(ws, sp) == sp);
        assert(sp.drop_first().len() == 0);
        assert(words(sp.drop_first()).len() == 0);
    } else if ws.len() == 1 {
        assert((sp + ws[0]).drop_first() == ws[0]);
        assert(is_word(ws[0]));
        lemma_words_of_word(ws[0]);
    } else {
        let front = ws.drop_last();
        assert forall|i: int| 0 <= i < front.len() implies is_word(#[trigger] front[i]) by {
            assert(front[i] == ws[i]);
        }
        lemma_words_of_joined(front);
        assert(is_word(ws.last()));
        lemma_words_push(sp + join(front, sp), ws.last());
        assert(sp + join(ws, sp) == (sp + join(front, sp)) + sp + ws.last());
        assert(front.push(ws.last()) == ws);
    }
}

/// Words joined with single spaces hold no line feed, and where there is a word, the
/// text is not empty and does not end in a carriage return.
pub proof fn lemma_joined_words_stay_on_the_line(ws: Seq<Seq<char>>)
    requires
        forall|i: int| 0 <= i < ws.len() ==> is_word(#[trigger] ws[i]),
    ensures
        forall|k: int| 0 <= k < join(ws, seq![' ']).len() ==> #[trigger] join(ws, seq![' '])[k]
            != '\n',
        ws.len() > 0 ==> join(ws, seq![' ']).len() > 0 && join(ws, seq![' ']).last() != '\r',
    decreases ws.len(),
{
    let sp = seq![' '];
    let joined = join(ws, sp);
    if ws.len() == 1 {
        let w = ws[0];
        assert(is_word(w));
        assert forall|k: int| 0 <= k < joined.len() implies #[trigger] joined[k] != '\n' by {
            assert(!is_whitespace(w[k]));
        }
        assert(!is_whitespace(w.last()));
    } else if ws.len() > 1 {
        let front = ws.drop_last();
        let w = ws.last();
        assert forall|i: int| 0 <= i < front.len() implies is_word(#[trigger] front[i]) by {
            assert(front[i] == ws[i]);
        }
        lemma_joined_words_stay_on_the_line(front);
        assert(is_word(w));
        let before = join(front, sp) + sp;
        assert(joined == before + w);
        assert forall|k: int| 0 <= k < joined.len() implies #[trigger] joined[k] != '\n' by {
            if k < join(front, sp).len() {
                assert(joined[k] == join(front, sp)[k]);
            } else if k >= before.len() {
                assert(joined[k] == w[k - before.len()]);
                assert(!is_whitespace(w[k - before.len()]));
            }
        }
        assert(joined.last() == w.last());
        assert(!is_whitespace(w.last()));
    }
}

/// Splits `s` at Unicode whitespace into its words, dropping the whitespace.
pub fn split_whitespace(s: &str) -> (out: Vec<String>)
    ensures
        views(out@) == words(s@),
{
    let cs = chars_of(s);
    let n = cs.len();
    let mut out: Vec<String> = Vec::new();
    let mut i: usize = 0;
    assert(s@.skip(0) == s@);
    while i < n
        invariant
            i <= n,
            n == cs.len(),
            cs@ == s@,
            words(s@) == views(out@) + words(s@.skip(i as int)),
        decreases n - i,
    {
        let ghost rest = s@.skip(i as int);
        if is_whitespace_char(cs[i]) {
            assert(rest.drop_first() == s@.skip(i + 1));
            i = i + 1;
        } else {
            let start = i;
            let mut j: usize = i + 1;
            while j < n && !is_whitespace_char(cs[j])
                invariant
                    start < j <= n,
                    n == cs.len(),
                    cs@ == s@,
                    forall|k: int| start <= k < j ==> !is_whitespace(#[trigger] s@[k]),
                decreases n - j,
            {
                j = j + 1;
            }
            let word = String::from_str(s.substring_char(start, j));
            proof {
                lemma_word_len_is(rest, j - start);
                assert(rest.take(j - start) == s@.subrange(start as int, j as int));
                assert(rest.skip(j - start) == s@.skip(j as int));
                let ghost before = views(out@);
                assert(views(out@.push(word)) == before.push(word@));
                assert(before + (seq![word@] + words(s@.skip(j as int))) == before.push(word@)
                    + words(s@.skip(j as int)));
            }
            out.push(word);
            i = j;
        }
    }
    assert(words(s@.skip(n as int)) == Seq::<Seq<char>>::empty());
    out
}

/// Writes `parts` one after the other with `sep` between neighbours.
pub fn join_strings(parts: &Vec<String>, sep: &str) -> (out: String)
    ensures
        out@ == join(views(parts@), sep@),
{
    let mut out = String::new();
    let n = parts.len();
    let mut i: usize = 0;
    while i < n
        invariant
            i <= n,
            n == parts.len(),
            out@ == join(views(parts@).take(i as int), sep@),
        decreases n - i,
    {
        let ghost done = views(parts@).take(i as int);
        let ghost next = views(parts@).take(i + 1);
        assert(next.drop_last() == done);
        assert(next.last() == parts@[i as int]@);
        if i > 0 {
            out.append(sep);
        } else {
            assert(out@ + parts@[i as int]@ == parts@[i as int]@);
        }
        out.append(parts[i].as_str());
        i = i + 1;
    }
    assert(views(parts@).take(n as int) == views(parts@));
    out
}

} // verus!
