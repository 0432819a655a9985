//! The whitespace-word model of a line.
//!
//! A line splits into words: maximal runs of non-whitespace characters. The
//! extractor keeps exactly the words that carry both variable delimiters, in
//! order of appearance.

use vstd::prelude::*;
use crate::scanner::contains_seq;

verus! {

/// Unicode whitespace, as the `White_Space` property lists it.
pub open spec fn is_space(c: char) -> bool {
    ||| c == '\u{9}'
    ||| c == '\u{a}'
    ||| c == '\u{b}'
    ||| c == '\u{c}'
    ||| c == '\u{d}'
    ||| c == ' '
    ||| c == '\u{85}'
    ||| c == '\u{a0}'
    ||| c == '\u{1680}'
    ||| c == '\u{2000}'
    ||| c == '\u{2001}'
    ||| c == '\u{2002}'
    ||| c == '\u{2003}'
    ||| c == '\u{2004}'
    ||| c == '\u{2005}'
    ||| c == '\u{2006}'
    ||| c == '\u{2007}'
    ||| c == '\u{2008}'
    ||| c == '\u{2009}'
    ||| c == '\u{200a}'
    ||| c == '\u{2028}'
    ||| c == '\u{2029}'
    ||| c == '\u{202f}'
    ||| c == '\u{205f}'
    ||| c == '\u{3000}'
}

/// Decides `is_space`.
pub fn is_space_char(c: char) -> (b: bool)
    ensures
        b == is_space(c),
{
    c == '\u{9}' || c == '\u{a}' || c == '\u{b}' || c == '\u{c}' || c == '\u{d}' || c == ' '
        || c == '\u{85}' || c == '\u{a0}' || c == '\u{1680}' || c == '\u{2000}' || c == '\u{2001}'
        || c == '\u{2002}' || c == '\u{2003}' || c == '\u{2004}' || c == '\u{2005}'
        || c == '\u{2006}' || c == '\u{2007}' || c == '\u{2008}' || c == '\u{2009}'
        || c == '\u{200a}' || c == '\u{2028}' || c == '\u{2029}' || c == '\u{202f}'
        || c == '\u{205f}' || c == '\u{3000}'
}

/// Length of the maximal non-whitespace prefix of `s`.
pub open spec fn word_len(s: Seq<char>) -> int
    decreases s.len(),
{
    if s.len() == 0 || is_space(s[0]) {
        0
    } else {
        1 + word_len(s.drop_first())
    }
}

/// `word_len` marks the first whitespace character, or the end of `s`.
pub proof fn lemma_word_len_bounds(s: Seq<char>)
    ensures
        0 <= word_len(s) <= s.len(),
        s.len() > 0 && !is_space(s[0]) ==> 1 <= word_len(s),
        forall|j: int| 0 <= j < word_len(s) ==> !is_space(s[j]),
        word_len(s) < s.len() ==> is_space(s[word_len(s)]),
    decreases s.len(),
{
    if s.len() == 0 || is_space(s[0]) {
    } else {
        lemma_word_len_bounds(s.drop_first());
        assert forall|j: int| 0 <= j < word_len(s) implies !is_space(s[j]) by {
            if j > 0 {
                assert(s.drop_first()[j - 1] == s[j]);
                assert(!is_space(s.drop_first()[j - 1]));
            }
        }
        if word_len(s) < s.len() {
            assert(s.drop_first()[word_len(s) - 1] == s[word_len(s)]);
        }
    }
}

/// The words of `s`: maximal non-whitespace runs, in order.
pub open spec fn words_of(s: Seq<char>) -> Seq<Seq<char>>
    decreases s.len(),
    via words_of_decreases
{
    if s.len() == 0 {
        Seq::empty()
    } else if is_space(s[0]) {
        words_of(s.drop_first())
    } else {
        seq![s.take(word_len(s))] + words_of(s.skip(word_len(s)))
    }
}

#[via_fn]
proof fn words_of_decreases(s: Seq<char>) {
    lemma_word_len_bounds(s);
}

/// A word carrying both an opening and a closing variable delimiter.
pub open spec fn is_token(w: Seq<char>) -> bool {
    contains_seq(w, "{{"@) && contains_seq(w, "}}"@)
}

/// The subsequence of words that are placeholder tokens, order preserved.
pub open spec fn filter_tokens(ws: Seq<Seq<char>>) -> Seq<Seq<char>>
    decreases ws.len(),
{
    if ws.len() == 0 {
        Seq::empty()
    } else if is_token(ws[0]) {
        seq![ws[0]] + filter_tokens(ws.drop_first())
    } else {
        filter_tokens(ws.drop_first())
    }
}

/// The placeholder tokens of a line, in order of first appearance,
/// duplicates preserved.
pub open spec fn var_words(s: Seq<char>) -> Seq<Seq<char>> {
    filter_tokens(words_of(s))
}

/// Skipping a leading whitespace character leaves the words unchanged.
pub proof fn lemma_words_skip_space(s: Seq<char>, i: int)
    requires
        0 <= i < s.len(),
        is_space(s[i]),
    ensures
        words_of(s.skip(i)) == words_of(s.skip(i + 1)),
{
    assert(s.skip(i).drop_first() =~= s.skip(i + 1));
    assert(s.skip(i)[0] == s[i]);
}

/// A maximal non-whitespace run `[i, j)` is the first word of `s.skip(i)`.
pub proof fn lemma_words_at_word(s: Seq<char>, i: int, j: int)
    requires
        0 <= i < j <= s.len(),
        forall|k: int| i <= k < j ==> !is_space(s[k]),
        j == s.len() || is_space(s[j]),
    ensures
        words_of(s.skip(i)) == seq![s.subrange(i, j)] + words_of(s.skip(j)),
{
    let t = s.skip(i);
    assert(forall|k: int| 0 <= k < t.len() ==> t[k] == s[i + k]);
    lemma_word_len_bounds(t);
    let w = word_len(t);
    assert(!is_space(t[0]));
    if w < j - i {
        assert(is_space(t[w]));
        assert(t[w] == s[i + w]);
        assert(false);
    }
    if w > j - i {
        assert(j < s.len());
        assert(!is_space(t[j - i]));
        assert(t[j - i] == s[j]);
        assert(false);
    }
    assert(w == j - i);
    assert(t.take(w) =~= s.subrange(i, j));
    assert(t.skip(w) =~= s.skip(j));
}

/// One step of `filter_tokens` over a word prepended to a word list.
pub proof fn lemma_filter_tokens_step(w: Seq<char>, rest: Seq<Seq<char>>)
    ensures
        filter_tokens(seq![w] + rest) == (if is_token(w) {
            seq![w] + filter_tokens(rest)
        } else {
            filter_tokens(rest)
        }),
{
    let ws = seq![w] + rest;
    assert(ws[0] == w);
    assert(ws.drop_first() =~= rest);
}

} // verus!
