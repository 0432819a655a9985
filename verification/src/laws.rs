//! Laws of the engine: classification precedence, pass-through of literal
//! lines, reported failures, and the round trip from extraction through
//! substitution.

use vstd::prelude::*;
use crate::content::classification;
use crate::content::spec_is_for_tag;
use crate::content::spec_is_tag_expression;
use crate::content::LineClass;
use crate::content::TagType;
use crate::scanner::contains_seq;
use crate::scanner::find_char;
use crate::scanner::is_match_at;
use crate::scanner::lemma_find_char_props;
use crate::substitute::replace_all;
use crate::substitute::substitute_all;
use crate::substitute::token_name;
use crate::substitute::SubstOutcome;
use crate::words::filter_tokens;
use crate::words::is_space;
use crate::words::is_token;
use crate::words::lemma_filter_tokens_step;
use crate::words::lemma_word_len_bounds;
use crate::words::lemma_words_at_word;
use crate::words::var_words;
use crate::words::word_len;
use crate::words::words_of;

verus! {

/// A line carrying none of the delimiters `{{`, `}}`, `{%`, `%}` is
/// classified as a literal, its text unchanged.
pub proof fn lemma_literal_passthrough(s: Seq<char>)
    requires
        !contains_seq(s, "{{"@),
        !contains_seq(s, "}}"@),
        !contains_seq(s, "{%"@),
        !contains_seq(s, "%}"@),
    ensures
        classification(s) == LineClass::Literal(s),
{
}

/// Any line carrying a `{% %}` pair together with for-keywords (`for` and
/// `in`, or `endfor`) is classified `Tag(ForTag)` — even when it also
/// carries `{{ }}`-shaped text: tag detection takes precedence over
/// variable detection.
pub proof fn lemma_for_tag_precedence(s: Seq<char>)
    requires
        spec_is_tag_expression(s),
        spec_is_for_tag(s),
    ensures
        classification(s) == LineClass::Tag(TagType::ForTag),
{
}

/// When the first token is well formed but its name is unbound in the
/// context, substitution reports exactly that missing name, whatever the
/// buffer holds.
pub proof fn lemma_missing_context_value(
    cur: Seq<char>,
    vars: Seq<Seq<char>>,
    ctx: Map<Seq<char>, Seq<char>>,
    name: Seq<char>,
)
    requires
        vars.len() > 0,
        token_name(vars[0]) == Some(name),
        !ctx.contains_key(name),
    ensures
        substitute_all(cur, vars, ctx) == SubstOutcome::Missing(name),
{
}

/// No `{` and no `}` anywhere in `s`.
pub open spec fn brace_free(s: Seq<char>) -> bool {
    forall|i: int| 0 <= i < s.len() ==> s[i] != '{' && s[i] != '}'
}

/// A text without any occurrence of the pattern is left unchanged.
proof fn lemma_replace_all_no_match(text: Seq<char>, pat: Seq<char>, rep: Seq<char>)
    requires
        forall|i: int| !is_match_at(text, pat, i),
    ensures
        replace_all(text, pat, rep) == text,
    decreases text.len(),
{
    if pat.len() == 0 || text.len() < pat.len() {
    } else {
        assert(text.take(pat.len() as int) =~= text.subrange(0, pat.len() as int));
        assert(!is_match_at(text, pat, 0));
        assert forall|i: int| !is_match_at(text.drop_first(), pat, i) by {
            if is_match_at(text.drop_first(), pat, i) {
                assert(text.subrange(i + 1, i + 1 + pat.len()) =~= text.drop_first().subrange(
                    i,
                    i + pat.len() as int,
                ));
                assert(is_match_at(text, pat, i + 1));
            }
        }
        lemma_replace_all_no_match(text.drop_first(), pat, rep);
        assert(text =~= seq![text[0]] + text.drop_first());
    }
}

/// Replacement passes unchanged over a prefix in which no match starts.
proof fn lemma_replace_all_prefix(a: Seq<char>, b: Seq<char>, pat: Seq<char>, rep: Seq<char>)
    requires
        pat.len() >= 1,
        forall|i: int| 0 <= i < a.len() ==> !is_match_at(a + b, pat, i),
    ensures
        replace_all(a + b, pat, rep) == a + replace_all(b, pat, rep),
    decreases a.len(),
{
    let t = a + b;
    if a.len() == 0 {
        assert(t =~= b);
        assert(a + replace_all(b, pat, rep) =~= replace_all(b, pat, rep));
    } else if t.len() < pat.len() {
        assert(b.len() < pat.len());
        assert(replace_all(b, pat, rep) == b);
        assert(a + b =~= t);
    } else {
        assert(!is_match_at(t, pat, 0));
        assert(t.take(pat.len() as int) =~= t.subrange(0, pat.len() as int));
        assert(t.drop_first() =~= a.drop_first() + b);
        assert forall|i: int|
            0 <= i < a.drop_first().len() implies !is_match_at(
            a.drop_first() + b,
            pat,
            i,
        ) by {
            if is_match_at(a.drop_first() + b, pat, i) {
                assert(t.subrange(i + 1, i + 1 + pat.len()) =~= (a.drop_first() + b).subrange(
                    i,
                    i + pat.len() as int,
                ));
                assert(is_match_at(t, pat, i + 1));
            }
        }
        lemma_replace_all_prefix(a.drop_first(), b, pat, rep);
        assert(seq![t[0]] + (a.drop_first() + replace_all(b, pat, rep)) =~= a + replace_all(
            b,
            pat,
            rep,
        ));
    }
}

/// The well-formed standalone token for a variable name: `{{name}}`.
pub open spec fn token_of(name: Seq<char>) -> Seq<char> {
    seq!['{', '{'] + name + seq!['}', '}']
}

/// A usable variable name: free of braces and of whitespace.
pub open spec fn plain_name(name: Seq<char>) -> bool {
    brace_free(name) && (forall|i: int| 0 <= i < name.len() ==> !is_space(name[i]))
}

/// The shape of a well-formed token: its braces stand only at the ends, its
/// name is exactly the text between them, and it is recognized as a token.
proof fn lemma_token_of_shape(name: Seq<char>)
    requires
        brace_free(name),
    ensures
        token_of(name).len() == name.len() + 4,
        token_of(name)[0] == '{' && token_of(name)[1] == '{',
        forall|j: int| 0 <= j < name.len() ==> token_of(name)[j + 2] == name[j],
        token_of(name)[name.len() as int + 2] == '}' && token_of(name)[name.len() as int + 3]
            == '}',
        forall|p: int| 0 <= p < token_of(name).len() && token_of(name)[p] == '{' ==> p <= 1,
        forall|p: int|
            0 <= p < token_of(name).len() && token_of(name)[p] == '}' ==> p >= name.len() + 2,
        token_name(token_of(name)) == Some(name),
        is_token(token_of(name)),
{
    reveal_strlit("{{");
    reveal_strlit("}}");
    let t = token_of(name);
    let nl = name.len() as int;
    assert(t.len() == nl + 4);
    assert(t[0] == '{' && t[1] == '{');
    assert(forall|j: int| 0 <= j < nl ==> t[j + 2] == name[j]);
    assert(t[nl + 2] == '}' && t[nl + 3] == '}');
    lemma_find_char_props(t, '{');
    assert(find_char(t, '{') == Some(0int));
    lemma_find_char_props(t, '}');
    assert(find_char(t, '}') == Some(nl + 2)) by {
        match find_char(t, '}') {
            Some(k) => {
                assert(t[k] == '}');
                if k < nl + 2 {
                    if k >= 2 {
                        assert(t[k] == name[k - 2]);
                    }
                    assert(false);
                }
                assert(k == nl + 2);
            },
            None => {
                assert(false);
            },
        }
    }
    assert(token_name(t) == Some(name)) by {
        assert(t.subrange(2, nl + 2) =~= name);
    }
    assert(is_token(t)) by {
        assert(t.subrange(0, 2) =~= "{{"@);
        assert(is_match_at(t, "{{"@, 0));
        assert(t.subrange(nl + 2, nl + 4) =~= "}}"@);
        assert(is_match_at(t, "}}"@, nl + 2));
    }
}

/// A word without braces is no placeholder token.
proof fn lemma_brace_free_not_token(w: Seq<char>)
    requires
        brace_free(w),
    ensures
        !is_token(w),
{
    reveal_strlit("{{");
    reveal_strlit("}}");
    if contains_seq(w, "{{"@) {
        let i = choose|i: int| is_match_at(w, "{{"@, i);
        assert(w.subrange(i, i + 2)[0] == w[i]);
        assert(w[i] == '{');
        assert(false);
    }
}

/// A brace-free stretch of text contributes no placeholder tokens.
proof fn lemma_brace_free_no_tokens(s: Seq<char>)
    requires
        brace_free(s),
    ensures
        filter_tokens(words_of(s)) == Seq::<Seq<char>>::empty(),
    decreases s.len(),
{
    if s.len() == 0 {
    } else if is_space(s[0]) {
        assert(forall|j: int|
            0 <= j < s.drop_first().len() ==> s.drop_first()[j] == s[j + 1]);
        lemma_brace_free_no_tokens(s.drop_first());
    } else {
        lemma_word_len_bounds(s);
        let w = word_len(s);
        assert(forall|j: int| 0 <= j < w ==> s.take(w)[j] == s[j]);
        lemma_brace_free_not_token(s.take(w));
        lemma_filter_tokens_step(s.take(w), words_of(s.skip(w)));
        assert(forall|j: int| 0 <= j < s.skip(w).len() ==> s.skip(w)[j] == s[j + w]);
        lemma_brace_free_no_tokens(s.skip(w));
    }
}

/// Splitting into words passes a whitespace boundary.
proof fn lemma_words_concat(a: Seq<char>, b: Seq<char>)
    requires
        a.len() == 0 || is_space(a.last()),
    ensures
        words_of(a + b) == words_of(a) + words_of(b),
    decreases a.len(),
{
    if a.len() == 0 {
        assert(a + b =~= b);
        assert(words_of(a) + words_of(b) =~= words_of(b));
    } else if is_space(a[0]) {
        assert((a + b).drop_first() =~= a.drop_first() + b);
        if a.len() > 1 {
            assert(a.drop_first().last() == a.last());
        }
        lemma_words_concat(a.drop_first(), b);
    } else {
        lemma_word_len_bounds(a);
        let w = word_len(a);
        assert(a[a.len() - 1] == a.last());
        assert(w < a.len());
        assert(is_space(a[w]));
        let e = a + b;
        assert(e.skip(0) =~= e);
        assert(forall|k: int| 0 <= k < a.len() ==> e[k] == a[k]);
        lemma_words_at_word(e, 0, w);
        assert(words_of(e) == seq![e.subrange(0, w)] + words_of(e.skip(w)));
        assert(a.skip(0) =~= a);
        lemma_words_at_word(a, 0, w);
        assert(words_of(a) == seq![a.subrange(0, w)] + words_of(a.skip(w)));
        assert(e.subrange(0, w) =~= a.subrange(0, w));
        assert(e.skip(w) =~= a.skip(w) + b);
        assert(a.skip(w).last() == a.last());
        lemma_words_concat(a.skip(w), b);
        assert(seq![a.subrange(0, w)] + (words_of(a.skip(w)) + words_of(b)) =~= (seq![
            a.subrange(0, w),
        ] + words_of(a.skip(w))) + words_of(b));
    }
}

/// Filtering tokens distributes over word-list concatenation.
proof fn lemma_filter_tokens_concat(xs: Seq<Seq<char>>, ys: Seq<Seq<char>>)
    ensures
        filter_tokens(xs + ys) == filter_tokens(xs) + filter_tokens(ys),
    decreases xs.len(),
{
    if xs.len() == 0 {
        assert(xs + ys =~= ys);
        assert(filter_tokens(xs) + filter_tokens(ys) =~= filter_tokens(ys));
    } else {
        assert((xs + ys)[0] == xs[0]);
        assert((xs + ys).drop_first() =~= xs.drop_first() + ys);
        lemma_filter_tokens_concat(xs.drop_first(), ys);
        if is_token(xs[0]) {
            assert(seq![xs[0]] + (filter_tokens(xs.drop_first()) + filter_tokens(ys)) =~= (seq![
                xs[0],
            ] + filter_tokens(xs.drop_first())) + filter_tokens(ys));
        }
    }
}

/// `segs` interleaved with the tokens of `names`:
/// `segs[0] {{names[0]}} segs[1] ... {{names[k-1]}} segs[k]`.
pub open spec fn interleave(segs: Seq<Seq<char>>, names: Seq<Seq<char>>) -> Seq<char>
    recommends
        segs.len() == names.len() + 1,
    decreases names.len(),
{
    if names.len() == 0 {
        if segs.len() == 0 {
            Seq::empty()
        } else {
            segs[0]
        }
    } else {
        segs[0] + token_of(names[0]) + interleave(segs.drop_first(), names.drop_first())
    }
}

/// `segs` interleaved with the context values of `names`: the line after a
/// complete substitution.
pub open spec fn fill(
    segs: Seq<Seq<char>>,
    names: Seq<Seq<char>>,
    ctx: Map<Seq<char>, Seq<char>>,
) -> Seq<char>
    recommends
        segs.len() == names.len() + 1,
    decreases names.len(),
{
    if names.len() == 0 {
        if segs.len() == 0 {
            Seq::empty()
        } else {
            segs[0]
        }
    } else {
        segs[0] + ctx[names[0]] + fill(segs.drop_first(), names.drop_first(), ctx)
    }
}

/// Segments of a well-formed template over `k` variables: brace-free
/// throughout, and meeting every token at whitespace.
pub open spec fn segments_ok(segs: Seq<Seq<char>>, k: int) -> bool {
    &&& segs.len() == k + 1
    &&& (forall|j: int| 0 <= j <= k ==> brace_free(segs[j]))
    &&& (k > 0 ==> (segs[0].len() == 0 || is_space(segs[0].last())))
    &&& (k > 0 ==> (segs[k].len() == 0 || is_space(segs[k].first())))
    &&& (forall|j: int|
        0 < j < k ==> segs[j].len() > 0 && is_space(segs[j].first()) && is_space(segs[j].last()))
}

/// The token of a name occurs nowhere in an interleaving of brace-free
/// segments with the tokens of other names.
proof fn lemma_no_token_match_in_interleave(
    segs: Seq<Seq<char>>,
    names: Seq<Seq<char>>,
    other: Seq<char>,
)
    requires
        segs.len() == names.len() + 1,
        forall|j: int| 0 <= j < segs.len() ==> brace_free(segs[j]),
        forall|j: int| 0 <= j < names.len() ==> brace_free(names[j]),
        forall|j: int| 0 <= j < names.len() ==> names[j] != other,
        brace_free(other),
    ensures
        forall|i: int| !is_match_at(interleave(segs, names), token_of(other), i),
    decreases names.len(),
{
    let t = token_of(other);
    let al = other.len() as int;
    lemma_token_of_shape(other);
    let e = interleave(segs, names);
    if names.len() == 0 {
        assert forall|i: int| !is_match_at(e, t, i) by {
            if is_match_at(e, t, i) {
                assert(e.subrange(i, i + t.len() as int)[0] == e[i]);
                assert(e[i] == '{');
                assert(false);
            }
        }
    } else {
        let s0 = segs[0];
        let n0 = names[0];
        let t0 = token_of(n0);
        let bl = n0.len() as int;
        lemma_token_of_shape(n0);
        let rest = interleave(segs.drop_first(), names.drop_first());
        assert(forall|j: int|
            0 <= j < segs.drop_first().len() ==> segs.drop_first()[j] == segs[j + 1]);
        assert(forall|j: int|
            0 <= j < names.drop_first().len() ==> names.drop_first()[j] == names[j + 1]);
        lemma_no_token_match_in_interleave(segs.drop_first(), names.drop_first(), other);
        let off = s0.len() + t0.len();
        assert(e == s0 + t0 + rest);
        assert(e.len() == off + rest.len());
        assert(forall|q: int| 0 <= q < s0.len() ==> e[q] == s0[q]);
        assert(forall|q: int| 0 <= q < t0.len() ==> e[s0.len() + q] == t0[q]);
        assert(forall|q: int| 0 <= q < rest.len() ==> e[off + q] == rest[q]);
        assert forall|i: int| !is_match_at(e, t, i) by {
            if is_match_at(e, t, i) {
                assert forall|q: int| 0 <= q < t.len() implies e[i + q] == t[q] by {
                    assert(e.subrange(i, i + t.len() as int)[q] == e[i + q]);
                }
                assert(e[i] == t[0]);
                assert(e[i] == '{');
                if i < s0.len() {
                    assert(e[i] == s0[i]);
                    assert(false);
                } else if i < off {
                    let p = i - s0.len();
                    assert(t0[p] == '{');
                    assert(p <= 1);
                    if p == 0 {
                        if al < bl {
                            assert(t[2 + al] == '}');
                            assert(e[i + 2 + al] == t0[2 + al]);
                            assert(t0[2 + al] == n0[al]);
                            assert(false);
                        } else if al == bl {
                            assert forall|j: int| 0 <= j < al implies other[j] == n0[j] by {
                                assert(t[2 + j] == other[j]);
                                assert(e[i + 2 + j] == t0[2 + j]);
                                assert(t0[2 + j] == n0[j]);
                            }
                            assert(other =~= n0);
                            assert(false);
                        } else {
                            assert(t[2 + bl] == other[bl]);
                            assert(e[i + 2 + bl] == t0[2 + bl]);
                            assert(t0[2 + bl] == '}');
                            assert(false);
                        }
                    } else {
                        assert(t[1] == '{');
                        assert(e[i + 1] == t0[2]);
                        if bl > 0 {
                            assert(t0[2] == n0[0]);
                        } else {
                            assert(t0[2] == '}');
                        }
                        assert(false);
                    }
                } else {
                    assert(i - off + t.len() <= rest.len());
                    assert(rest.subrange(i - off, i - off + t.len() as int) =~= e.subrange(
                        i,
                        i + t.len() as int,
                    ));
                    assert(is_match_at(rest, t, i - off));
                    assert(false);
                }
            }
        }
    }
}

/// Substituting the tokens of `names`, in order, into a brace-free prefix
/// followed by their interleaving rewrites each token to its context value.
proof fn lemma_fill_interleave(
    prefix: Seq<char>,
    segs: Seq<Seq<char>>,
    names: Seq<Seq<char>>,
    ctx: Map<Seq<char>, Seq<char>>,
)
    requires
        brace_free(prefix),
        segs.len() == names.len() + 1,
        forall|j: int| 0 <= j < segs.len() ==> brace_free(segs[j]),
        forall|j: int| 0 <= j < names.len() ==> brace_free(names[j]),
        forall|i: int, j: int| 0 <= i < j < names.len() ==> names[i] != names[j],
        forall|j: int|
            0 <= j < names.len() ==> ctx.contains_key(names[j]) && brace_free(ctx[names[j]]),
    ensures
        substitute_all(
            prefix + interleave(segs, names),
            names.map_values(|n: Seq<char>| token_of(n)),
            ctx,
        ) == SubstOutcome::Done(prefix + fill(segs, names, ctx)),
        brace_free(prefix + fill(segs, names, ctx)),
    decreases names.len(),
{
    let toks = names.map_values(|n: Seq<char>| token_of(n));
    if names.len() == 0 {
        let e = prefix + segs[0];
        assert(toks.len() == 0);
        assert(substitute_all(e, toks, ctx) == SubstOutcome::Done(e));
        assert(brace_free(e)) by {
            assert(forall|q: int| 0 <= q < prefix.len() ==> e[q] == prefix[q]);
            assert(forall|q: int|
                prefix.len() <= q < e.len() ==> e[q] == segs[0][q - prefix.len()]);
        }
    } else {
        let s0 = segs[0];
        let n0 = names[0];
        let t0 = token_of(n0);
        let v0 = ctx[n0];
        lemma_token_of_shape(n0);
        let rest = interleave(segs.drop_first(), names.drop_first());
        let e = prefix + interleave(segs, names);
        assert(toks[0] == t0);
        assert(toks.drop_first() =~= names.drop_first().map_values(
            |n: Seq<char>| token_of(n),
        ));
        assert(token_name(t0) == Some(n0));

        // The buffer splits as a brace-free prefix, the token, and the rest.
        let lead = prefix + s0;
        assert(e =~= lead + (t0 + rest));
        assert(brace_free(lead)) by {
            assert(forall|q: int| 0 <= q < prefix.len() ==> lead[q] == prefix[q]);
            assert(forall|q: int|
                prefix.len() <= q < lead.len() ==> lead[q] == s0[q - prefix.len()]);
        }
        assert forall|i: int| 0 <= i < lead.len() implies !is_match_at(
            lead + (t0 + rest),
            t0,
            i,
        ) by {
            if is_match_at(lead + (t0 + rest), t0, i) {
                let whole = lead + (t0 + rest);
                assert(whole.subrange(i, i + t0.len() as int)[0] == whole[i]);
                assert(whole[i] == '{');
                assert(whole[i] == lead[i]);
                assert(false);
            }
        }
        lemma_replace_all_prefix(lead, t0 + rest, t0, v0);
        assert((t0 + rest).take(t0.len() as int) =~= t0);
        assert((t0 + rest).skip(t0.len() as int) =~= rest);
        assert(forall|j: int|
            0 <= j < segs.drop_first().len() ==> segs.drop_first()[j] == segs[j + 1]);
        assert(forall|j: int|
            0 <= j < names.drop_first().len() ==> names.drop_first()[j] == names[j + 1]);
        lemma_no_token_match_in_interleave(segs.drop_first(), names.drop_first(), n0);
        lemma_replace_all_no_match(rest, t0, v0);
        assert(replace_all(e, t0, v0) == lead + (v0 + rest));

        // Recurse with the prefix grown by the segment and the value.
        let lead2 = lead + v0;
        assert(brace_free(lead2)) by {
            assert(forall|q: int| 0 <= q < lead.len() ==> lead2[q] == lead[q]);
            assert(forall|q: int|
                lead.len() <= q < lead2.len() ==> lead2[q] == v0[q - lead.len()]);
        }
        lemma_fill_interleave(lead2, segs.drop_first(), names.drop_first(), ctx);
        assert(lead + (v0 + rest) =~= lead2 + rest);
        assert(substitute_all(e, toks, ctx) == substitute_all(lead2 + rest, toks.drop_first(), ctx));
        assert(prefix + fill(segs, names, ctx) =~= lead2 + fill(
            segs.drop_first(),
            names.drop_first(),
            ctx,
        ));
    }
}

/// Extraction over an interleaving finds exactly the interleaved tokens, in
/// order.
proof fn lemma_extract_interleave(segs: Seq<Seq<char>>, names: Seq<Seq<char>>)
    requires
        segments_ok(segs, names.len() as int),
        forall|j: int| 0 <= j < names.len() ==> plain_name(names[j]),
    ensures
        var_words(interleave(segs, names)) == names.map_values(|n: Seq<char>| token_of(n)),
    decreases names.len(),
{
    let toks = names.map_values(|n: Seq<char>| token_of(n));
    if names.len() == 0 {
        lemma_brace_free_no_tokens(segs[0]);
        assert(toks =~= Seq::<Seq<char>>::empty());
    } else {
        let k = names.len() as int;
        let s0 = segs[0];
        let n0 = names[0];
        let t0 = token_of(n0);
        lemma_token_of_shape(n0);
        let rest = interleave(segs.drop_first(), names.drop_first());
        let e = interleave(segs, names);
        assert(forall|j: int|
            0 <= j < segs.drop_first().len() ==> segs.drop_first()[j] == segs[j + 1]);
        assert(forall|j: int|
            0 <= j < names.drop_first().len() ==> names.drop_first()[j] == names[j + 1]);

        // The token meets the following text at whitespace (or at the end).
        assert(rest.len() == 0 || is_space(rest.first())) by {
            if names.len() == 1 {
                assert(rest == segs.drop_first()[0]);
                assert(segs.drop_first()[0] == segs[k]);
            } else {
                let s1 = segs.drop_first()[0];
                assert(s1 == segs[1]);
                assert(s1.len() > 0 && is_space(s1.first()));
                assert(rest == s1 + token_of(names.drop_first()[0]) + interleave(
                    segs.drop_first().drop_first(),
                    names.drop_first().drop_first(),
                ));
                assert(rest[0] == s1[0]);
            }
        }
        assert(forall|p: int| 0 <= p < t0.len() ==> !is_space(t0[p])) by {
            assert(!is_space('{') && !is_space('}'));
        }

        // Words of the line: the words of the first segment, then the token,
        // then the words of the rest.
        let tp = t0 + rest;
        assert(e =~= s0 + tp);
        lemma_words_concat(s0, tp);
        assert(forall|q: int| 0 <= q < t0.len() ==> tp[q] == t0[q]);
        assert(forall|q: int| t0.len() <= q < tp.len() ==> tp[q] == rest[q - t0.len()]);
        assert(tp.skip(0) =~= tp);
        lemma_words_at_word(tp, 0, t0.len() as int);
        assert(tp.subrange(0, t0.len() as int) =~= t0);
        assert(tp.skip(t0.len() as int) =~= rest);
        assert(words_of(tp) == seq![t0] + words_of(rest));
        lemma_filter_tokens_concat(words_of(s0), seq![t0] + words_of(rest));
        lemma_filter_tokens_step(t0, words_of(rest));
        lemma_brace_free_no_tokens(s0);

        // Recurse over the remaining segments and names.
        assert(segments_ok(segs.drop_first(), k - 1)) by {
            assert(segs.drop_first()[k - 1] == segs[k]);
            if k - 1 > 0 {
                assert(segs.drop_first()[0] == segs[1]);
                assert(segs[1].len() > 0 && is_space(segs[1].last()));
            }
        }
        lemma_extract_interleave(segs.drop_first(), names.drop_first());
        assert(toks.drop_first() =~= names.drop_first().map_values(
            |n: Seq<char>| token_of(n),
        ));
        assert(var_words(e) =~= toks) by {
            assert(var_words(e) == filter_tokens(words_of(s0)) + (seq![t0] + filter_tokens(
                words_of(rest),
            )));
            assert(filter_tokens(words_of(s0)) + (seq![t0] + filter_tokens(words_of(rest)))
                =~= seq![t0] + var_words(rest));
            assert(seq![t0] + toks.drop_first() =~= toks);
        }
    }
}

/// Round-trip law: extracting the tokens of a template whose variables are
/// standalone `{{name}}` words with pairwise distinct, brace- and
/// whitespace-free names, separated by brace-free text that meets each token
/// at whitespace, and substituting with a context that binds every name to a
/// brace-free value, yields the template with each token replaced by its
/// value — and no residual `{{` or `}}` anywhere.
pub proof fn lemma_round_trip(
    segs: Seq<Seq<char>>,
    names: Seq<Seq<char>>,
    ctx: Map<Seq<char>, Seq<char>>,
)
    requires
        segments_ok(segs, names.len() as int),
        forall|j: int| 0 <= j < names.len() ==> plain_name(names[j]),
        forall|i: int, j: int| 0 <= i < j < names.len() ==> names[i] != names[j],
        forall|j: int|
            0 <= j < names.len() ==> ctx.contains_key(names[j]) && brace_free(ctx[names[j]]),
    ensures
        ({
            let e = interleave(segs, names);
            let out = fill(segs, names, ctx);
            &&& var_words(e) == names.map_values(|n: Seq<char>| token_of(n))
            &&& substitute_all(e, var_words(e), ctx) == SubstOutcome::Done(out)
            &&& !contains_seq(out, "{{"@)
            &&& !contains_seq(out, "}}"@)
        }),
{
    reveal_strlit("{{");
    reveal_strlit("}}");
    let e = interleave(segs, names);
    let out = fill(segs, names, ctx);
    lemma_extract_interleave(segs, names);
    lemma_fill_interleave(Seq::empty(), segs, names, ctx);
    assert(Seq::<char>::empty() + e =~= e);
    assert(Seq::<char>::empty() + out =~= out);
    assert(brace_free(out));
    if contains_seq(out, "{{"@) {
        let i = choose|i: int| is_match_at(out, "{{"@, i);
        assert(out.subrange(i, i + 2)[0] == out[i]);
        assert(out[i] == '{');
        assert(false);
    }
    if contains_seq(out, "}}"@) {
        let i = choose|i: int| is_match_at(out, "}}"@, i);
        assert(out.subrange(i, i + 2)[0] == out[i]);
        assert(out[i] == '}');
        assert(false);
    }
}

/// Round-trip law for a single-variable template. A line of the shape
/// `pre {{name}} post`, where `pre` and `post` carry no braces and meet the
/// token at whitespace, the name holds neither braces nor whitespace, and
/// the context binds the name to a brace-free value, extracts exactly that
/// one token, and substitution rewrites the line to `pre value post`, which
/// carries no residual `{{` or `}}`.
pub proof fn lemma_round_trip_single_variable(
    pre: Seq<char>,
    name: Seq<char>,
    post: Seq<char>,
    v: Seq<char>,
    ctx: Map<Seq<char>, Seq<char>>,
)
    requires
        brace_free(pre),
        brace_free(name),
        brace_free(post),
        brace_free(v),
        forall|i: int| 0 <= i < name.len() ==> !is_space(name[i]),
        pre.len() == 0 || is_space(pre.last()),
        post.len() == 0 || is_space(post.first()),
        ctx.contains_key(name),
        ctx[name] == v,
    ensures
        ({
            let t = seq!['{', '{'] + name + seq!['}', '}'];
            let e = pre + t + post;
            &&& var_words(e) == seq![t]
            &&& substitute_all(e, seq![t], ctx) == SubstOutcome::Done(pre + v + post)
            &&& !contains_seq(pre + v + post, "{{"@)
            &&& !contains_seq(pre + v + post, "}}"@)
        }),
{
    let segs = seq![pre, post];
    let names = seq![name];
    let t = token_of(name);
    assert(segs[0] == pre && segs[1] == post);
    assert(names[0] == name);
    assert(segments_ok(segs, 1));
    lemma_round_trip(segs, names, ctx);
    assert(segs.drop_first() =~= seq![post]);
    assert(names.drop_first() =~= Seq::<Seq<char>>::empty());
    assert(interleave(segs.drop_first(), names.drop_first()) == post);
    assert(fill(segs.drop_first(), names.drop_first(), ctx) == post);
    assert(interleave(segs, names) == pre + t + post);
    assert(fill(segs, names, ctx) == pre + v + post);
    assert(names.map_values(|n: Seq<char>| token_of(n)) =~= seq![t]);
}

} // verus!
