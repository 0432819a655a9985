//! Variable substitution into a classified expression line.
//!
//! Starting from the original expression text, each placeholder token is
//! replaced, in order of appearance, by the context value bound to the name
//! between its delimiters. Failures are reported to the caller; nothing
//! panics and nothing is mutated on a failed substitution.

use vstd::prelude::*;
use vstd::string::StrSliceExecFns;
use crate::content::ExpressionData;
use crate::context::Context;
use crate::scanner::find_char;
use crate::scanner::get_index_for_symbol;
use crate::scanner::is_match_at;
use crate::scanner::lemma_find_char_props;
use crate::scanner::match_at;

verus! {

/// The recoverable failures of this engine.
#[derive(PartialEq, Debug)]
pub enum TemplateError {
    /// A placeholder token lacks a usable `{`/`}` pair; carries the token.
    MalformedToken(String),
    /// A token's variable name is absent from the context; carries the name.
    MissingContextValue(String),
    /// A line carries tag delimiters but no known keyword set.
    UnrecognizedLine,
}

/// The variable name inside a placeholder token: the text from two places
/// past the first `{` (skipping the two-character opening delimiter) up to
/// the first `}`, when the two exist in that usable arrangement.
pub open spec fn token_name(t: Seq<char>) -> Option<Seq<char>> {
    match (find_char(t, '{'), find_char(t, '}')) {
        (Some(i), Some(k)) => if i + 2 <= k {
            Some(t.subrange(i + 2, k))
        } else {
            None
        },
        _ => None,
    }
}

/// Every occurrence of `pat` in `text`, scanned left to right without
/// overlap, replaced by `rep`; an empty pattern leaves `text` unchanged.
pub open spec fn replace_all(text: Seq<char>, pat: Seq<char>, rep: Seq<char>) -> Seq<char>
    decreases text.len(),
{
    if pat.len() == 0 || text.len() < pat.len() {
        text
    } else if text.take(pat.len() as int) == pat {
        rep + replace_all(text.skip(pat.len() as int), pat, rep)
    } else {
        seq![text[0]] + replace_all(text.drop_first(), pat, rep)
    }
}

/// Outcome of folding a token list over a buffer.
pub enum SubstOutcome {
    /// All tokens replaced; carries the rewritten buffer.
    Done(Seq<char>),
    /// The first failing token was malformed; carries the token.
    Malformed(Seq<char>),
    /// The first failing token named an unbound variable; carries the name.
    Missing(Seq<char>),
}

/// Folds the tokens, in order, over the buffer: each well-formed token whose
/// name the context binds replaces every occurrence of itself by the bound
/// value; the first failing token stops the fold.
pub open spec fn substitute_all(
    cur: Seq<char>,
    vars: Seq<Seq<char>>,
    ctx: Map<Seq<char>, Seq<char>>,
) -> SubstOutcome
    decreases vars.len(),
{
    if vars.len() == 0 {
        SubstOutcome::Done(cur)
    } else {
        match token_name(vars[0]) {
            Option::None => SubstOutcome::Malformed(vars[0]),
            Option::Some(name) => if !ctx.contains_key(name) {
                SubstOutcome::Missing(name)
            } else {
                substitute_all(replace_all(cur, vars[0], ctx[name]), vars.drop_first(), ctx)
            },
        }
    }
}

/// Replaces every occurrence of `pat` in `text`, left to right, by `rep`.
fn replace_string(text: &str, pat: &str, rep: &str) -> (r: String)
    requires
        pat@.len() >= 1,
    ensures
        r@ == replace_all(text@, pat@, rep@),
{
    let n = text.unicode_len();
    let m = pat.unicode_len();
    let mut out = String::new();
    proof {
        assert(text@.skip(0) =~= text@);
        assert(out@ + text@ =~= text@);
    }
    let mut i: usize = 0;
    while i < n
        invariant
            n == text@.len(),
            m == pat@.len(),
            1 <= m,
            i <= n,
            replace_all(text@, pat@, rep@) == out@ + replace_all(
                text@.skip(i as int),
                pat@,
                rep@,
            ),
        decreases n - i,
    {
        let matched = if m <= n - i {
            match_at(text, pat, i)
        } else {
            false
        };
        if matched {
            out.append(rep);
            proof {
                assert(text@.skip(i as int).take(m as int) =~= text@.subrange(i as int, i + m));
                assert(text@.skip(i as int).skip(m as int) =~= text@.skip(i + m));
            }
            i += m;
        } else {
            let piece = text.substring_char(i, i + 1);
            out.append(piece);
            proof {
                let t = text@.skip(i as int);
                assert(t.drop_first() =~= text@.skip(i + 1));
                assert(piece@ =~= seq![t[0]]);
                if m <= n - i {
                    assert(t.take(m as int) =~= text@.subrange(i as int, i + m));
                    assert(!is_match_at(text@, pat@, i as int));
                    assert(t.take(m as int) != pat@);
                } else {
                    assert(replace_all(t, pat@, rep@) == t);
                    assert(replace_all(t.drop_first(), pat@, rep@) == t.drop_first());
                    assert(t =~= seq![t[0]] + t.drop_first());
                }
            }
            i += 1;
        }
    }
    proof {
        assert(text@.skip(n as int) =~= Seq::<char>::empty());
        assert(out@ + Seq::<char>::empty() =~= out@);
    }
    out
}

/// Rewrites `content.gen_html`: starting from `content.expression`, each
/// token of `content.var_map`, in order, has every occurrence replaced by
/// the context value bound to the name between its delimiters. `expression`
/// and `var_map` are never changed; on an error nothing is changed at all,
/// and the error carries the offending token or name.
pub fn generate_html_template_var(content: &mut ExpressionData, context: &Context) -> (r: Result<
    (),
    TemplateError,
>)
    ensures
        final(content).expression == old(content).expression,
        final(content).var_map == old(content).var_map,
        match r {
            Ok(_) => substitute_all(old(content)@.expression, old(content)@.var_map, context@)
                == SubstOutcome::Done(final(content)@.gen_html),
            Err(TemplateError::MalformedToken(t)) => substitute_all(
                old(content)@.expression,
                old(content)@.var_map,
                context@,
            ) == SubstOutcome::Malformed(t@) && final(content).gen_html == old(content).gen_html,
            Err(TemplateError::MissingContextValue(nm)) => substitute_all(
                old(content)@.expression,
                old(content)@.var_map,
                context@,
            ) == SubstOutcome::Missing(nm@) && final(content).gen_html == old(content).gen_html,
            Err(TemplateError::UnrecognizedLine) => false,
        },
{
    let ghost vars = old(content)@.var_map;
    let mut cur: String = content.expression.clone();
    proof {
        assert(vars.skip(0) =~= vars);
    }
    let mut idx: usize = 0;
    while idx < content.var_map.len()
        invariant
            *content == *old(content),
            vars == content@.var_map,
            idx <= content.var_map@.len(),
            substitute_all(old(content)@.expression, vars, context@) == substitute_all(
                cur@,
                vars.skip(idx as int),
                context@,
            ),
        decreases content.var_map@.len() - idx,
    {
        let var: &String = &content.var_map[idx];
        proof {
            assert(vars.skip(idx as int)[0] == vars[idx as int]);
            assert(vars.skip(idx as int).drop_first() =~= vars.skip(idx + 1));
            assert(vars[idx as int] == var@);
            lemma_find_char_props(var@, '{');
            lemma_find_char_props(var@, '}');
        }
        let (found_open, i) = get_index_for_symbol(var.as_str(), '{');
        let (found_close, k) = get_index_for_symbol(var.as_str(), '}');
        if !found_open || !found_close || k < 2 || i > k - 2 {
            return Err(TemplateError::MalformedToken(var.clone()));
        }
        let name = var.as_str().substring_char(i + 2, k);
        match context.get(name) {
            Option::None => {
                return Err(TemplateError::MissingContextValue(name.to_owned()));
            },
            Option::Some(val) => {
                cur = replace_string(cur.as_str(), var.as_str(), val.as_str());
            },
        }
        idx += 1;
    }
    proof {
        assert(vars.skip(vars.len() as int) =~= Seq::<Seq<char>>::empty());
    }
    content.gen_html = cur;
    Ok(())
}

} // verus!
