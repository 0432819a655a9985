//! Substring-level scanning primitives.
//!
//! These are deliberately substring queries, not lexical-token queries: a
//! scan for `"if"` also matches inside the word `"gift"`. The classifier
//! inherits this trade-off.

use vstd::prelude::*;
use vstd::string::StrSliceExecFns;

verus! {

/// The pattern `pat` occurs in `text` starting at position `i`.
pub open spec fn is_match_at(text: Seq<char>, pat: Seq<char>, i: int) -> bool {
    &&& 0 <= i
    &&& i + pat.len() <= text.len()
    &&& text.subrange(i, i + pat.len() as int) == pat
}

/// The pattern `pat` occurs somewhere in `text` (plain substring containment).
pub open spec fn contains_seq(text: Seq<char>, pat: Seq<char>) -> bool {
    exists|i: int| is_match_at(text, pat, i)
}

/// First position of the character `c` in `s`, if any.
pub open spec fn find_char(s: Seq<char>, c: char) -> Option<int>
    decreases s.len(),
{
    if s.len() == 0 {
        None
    } else if s[0] == c {
        Some(0int)
    } else {
        match find_char(s.drop_first(), c) {
            None => None,
            Some(i) => Some(i + 1),
        }
    }
}

/// `find_char` returns the first occurrence of `c` in `s`, or `None` when
/// `c` does not occur at all.
pub proof fn lemma_find_char_props(s: Seq<char>, c: char)
    ensures
        match find_char(s, c) {
            Some(i) => 0 <= i < s.len() && s[i] == c && (forall|j: int|
                0 <= j < i ==> s[j] != c),
            None => forall|j: int| 0 <= j < s.len() ==> s[j] != c,
        },
    decreases s.len(),
{
    if s.len() == 0 {
    } else if s[0] == c {
    } else {
        lemma_find_char_props(s.drop_first(), c);
        match find_char(s.drop_first(), c) {
            None => {
                assert forall|j: int| 0 <= j < s.len() implies s[j] != c by {
                    if j > 0 {
                        assert(s.drop_first()[j - 1] == s[j]);
                    }
                }
            },
            Some(i) => {
                assert(find_char(s, c) == Some(i + 1));
                assert(s.drop_first()[i] == s[i + 1]);
                assert forall|j: int| 0 <= j < i + 1 implies s[j] != c by {
                    if j > 0 {
                        assert(s.drop_first()[j - 1] == s[j]);
                    }
                }
            },
        }
    }
}

/// Whether `pat` matches `text` at position `pos`, by direct comparison.
pub(crate) fn match_at(text: &str, pat: &str, pos: usize) -> (b: bool)
    requires
        pos + pat@.len() <= text@.len() <= usize::MAX,
    ensures
        b == is_match_at(text@, pat@, pos as int),
{
    let m = pat.unicode_len();
    let mut j: usize = 0;
    while j < m
        invariant
            j <= m,
            m == pat@.len(),
            pos + m <= text@.len() <= usize::MAX,
            forall|k: int| 0 <= k < j ==> text@[pos + k] == pat@[k],
        decreases m - j,
    {
        if text.get_char(pos + j) != pat.get_char(j) {
            proof {
                assert(text@.subrange(pos as int, pos + m as int)[j as int] == text@[pos + j]);
            }
            return false;
        }
        j += 1;
    }
    proof {
        assert(text@.subrange(pos as int, pos + m as int) =~= pat@);
    }
    true
}

/// True iff `symbol` occurs anywhere in `input` as a contiguous substring
/// (containment, not token-boundary aware).
pub fn check_symbol_string(input: &str, symbol: &str) -> (b: bool)
    ensures
        b == contains_seq(input@, symbol@),
{
    let n = input.unicode_len();
    let m = symbol.unicode_len();
    if m > n {
        proof {
            assert(forall|i: int| !is_match_at(input@, symbol@, i));
        }
        return false;
    }
    if m == 0 {
        proof {
            assert(input@.subrange(0, 0) =~= symbol@);
            assert(is_match_at(input@, symbol@, 0));
        }
        return true;
    }
    let mut i: usize = 0;
    while i <= n - m
        invariant
            n == input@.len(),
            m == symbol@.len(),
            1 <= m <= n <= usize::MAX,
            i <= n - m + 1,
            forall|k: int| 0 <= k < i ==> !is_match_at(input@, symbol@, k),
        decreases n - m + 1 - i,
    {
        if match_at(input, symbol, i) {
            proof {
                assert(contains_seq(input@, symbol@));
            }
            return true;
        }
        i += 1;
    }
    proof {
        assert(forall|k: int| !is_match_at(input@, symbol@, k));
    }
    false
}

/// True iff both `symbol1` and `symbol2` occur independently anywhere in
/// `input` (no ordering or pairing between the two is checked).
pub fn check_matching_pair(input: &str, symbol1: &str, symbol2: &str) -> (b: bool)
    ensures
        b == (contains_seq(input@, symbol1@) && contains_seq(input@, symbol2@)),
{
    let first = check_symbol_string(input, symbol1);
    let second = check_symbol_string(input, symbol2);
    first && second
}

/// First position of the character `symbol` in `input`: `(true, index)` when
/// present, `(false, 0)` when absent.
pub fn get_index_for_symbol(input: &str, symbol: char) -> (r: (bool, usize))
    ensures
        r.0 == (find_char(input@, symbol) is Some),
        r.0 ==> find_char(input@, symbol) == Some(r.1 as int),
        !r.0 ==> r.1 == 0,
{
    let n = input.unicode_len();
    let mut i: usize = 0;
    while i < n
        invariant
            n == input@.len(),
            i <= n,
            forall|j: int| 0 <= j < i ==> input@[j] != symbol,
        decreases n - i,
    {
        if input.get_char(i) == symbol {
            proof {
                lemma_find_char_props(input@, symbol);
            }
            return (true, i);
        }
        i += 1;
    }
    proof {
        lemma_find_char_props(input@, symbol);
    }
    (false, 0)
}

} // verus!
