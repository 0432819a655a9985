//! Line classification and placeholder extraction.
//!
//! A line is classified as literal text, a variable expression, a
//! control-flow tag marker, or unrecognized text. Tag detection takes strict
//! precedence over variable detection, and for-tags over if-tags.

use vstd::prelude::*;
use vstd::string::StrSliceExecFns;
use crate::scanner::check_matching_pair;
use crate::scanner::check_symbol_string;
use crate::scanner::contains_seq;
use crate::words::filter_tokens;
use crate::words::is_space;
use crate::words::is_space_char;
use crate::words::lemma_filter_tokens_step;
use crate::words::lemma_words_at_word;
use crate::words::lemma_words_skip_space;
use crate::words::var_words;
use crate::words::words_of;

verus! {

/// The kinds of control-flow tag markers.
#[derive(PartialEq, Debug)]
pub enum TagType {
    ForTag,
    IfTag,
}

/// A classified variable line: the original text, its placeholder tokens in
/// order of appearance, and the output buffer that substitution fills.
#[derive(PartialEq, Debug, Clone)]
pub struct ExpressionData {
    pub expression: String,
    pub var_map: Vec<String>,
    pub gen_html: String,
}

/// The classification of one line of template source.
#[derive(PartialEq, Debug)]
pub enum ContentType {
    Literal(String),
    TemplateVariable(ExpressionData),
    Tag(TagType),
    Unrecognized,
}

/// Mathematical model of an `ExpressionData`.
pub struct ExpressionModel {
    pub expression: Seq<char>,
    pub var_map: Seq<Seq<char>>,
    pub gen_html: Seq<char>,
}

/// Mathematical model of a `ContentType`.
pub enum LineClass {
    Literal(Seq<char>),
    TemplateVariable(ExpressionModel),
    Tag(TagType),
    Unrecognized,
}

/// The views of a list of strings, in order.
pub open spec fn views_of(v: Seq<String>) -> Seq<Seq<char>> {
    v.map_values(|w: String| w@)
}

impl View for ExpressionData {
    type V = ExpressionModel;

    open spec fn view(&self) -> ExpressionModel {
        ExpressionModel {
            expression: self.expression@,
            var_map: views_of(self.var_map@),
            gen_html: self.gen_html@,
        }
    }
}

impl View for ContentType {
    type V = LineClass;

    open spec fn view(&self) -> LineClass {
        match self {
            ContentType::Literal(t) => LineClass::Literal(t@),
            ContentType::TemplateVariable(d) => LineClass::TemplateVariable(d@),
            ContentType::Tag(t) => LineClass::Tag(*t),
            ContentType::Unrecognized => LineClass::Unrecognized,
        }
    }
}

/// The line carries a `{% ... %}` tag delimiter pair (in either order).
pub open spec fn spec_is_tag_expression(s: Seq<char>) -> bool {
    contains_seq(s, "{%"@) && contains_seq(s, "%}"@)
}

/// The line carries for-loop keywords, by plain substring containment.
pub open spec fn spec_is_for_tag(s: Seq<char>) -> bool {
    (contains_seq(s, "for"@) && contains_seq(s, "in"@)) || contains_seq(s, "endfor"@)
}

/// The line carries conditional keywords, by plain substring containment.
pub open spec fn spec_is_if_tag(s: Seq<char>) -> bool {
    contains_seq(s, "if"@) || contains_seq(s, "endif"@)
}

/// The line carries a `{{ ... }}` variable delimiter pair (in either order).
pub open spec fn spec_is_template_variable(s: Seq<char>) -> bool {
    contains_seq(s, "{{"@) && contains_seq(s, "}}"@)
}

/// Model of the `ExpressionData` the extractor builds from a line: the line
/// itself, its placeholder tokens, and an empty output buffer.
pub open spec fn extraction(s: Seq<char>) -> ExpressionModel {
    ExpressionModel { expression: s, var_map: var_words(s), gen_html: Seq::empty() }
}

/// The classification policy, first match wins: for-tags, then if-tags, then
/// variable lines, then literals; tag delimiters without a matching keyword
/// set are unrecognized.
pub open spec fn classification(s: Seq<char>) -> LineClass {
    if spec_is_tag_expression(s) && spec_is_for_tag(s) {
        LineClass::Tag(TagType::ForTag)
    } else if spec_is_tag_expression(s) && spec_is_if_tag(s) {
        LineClass::Tag(TagType::IfTag)
    } else if spec_is_template_variable(s) {
        LineClass::TemplateVariable(extraction(s))
    } else if !spec_is_tag_expression(s) {
        LineClass::Literal(s)
    } else {
        LineClass::Unrecognized
    }
}

/// Splits `input_line` on whitespace and collects, in scan order, every word
/// that carries both `{{` and `}}`, unmodified; the output buffer starts
/// empty.
pub fn get_expression_data(input_line: &str) -> (r: ExpressionData)
    ensures
        r@ == extraction(input_line@),
{
    let n = input_line.unicode_len();
    let mut var_map: Vec<String> = Vec::new();
    proof {
        assert(input_line@.skip(0) =~= input_line@);
        assert(views_of(var_map@) =~= Seq::<Seq<char>>::empty());
        assert(views_of(var_map@) + filter_tokens(words_of(input_line@)) =~= filter_tokens(
            words_of(input_line@),
        ));
    }
    let mut i: usize = 0;
    while i < n
        invariant
            n == input_line@.len(),
            i <= n,
            views_of(var_map@) + filter_tokens(words_of(input_line@.skip(i as int)))
                == var_words(input_line@),
        decreases n - i,
    {
        let c = input_line.get_char(i);
        if is_space_char(c) {
            proof {
                lemma_words_skip_space(input_line@, i as int);
            }
            i += 1;
        } else {
            let mut j: usize = i;
            while j < n
                invariant
                    n == input_line@.len(),
                    i <= j <= n,
                    forall|k: int| i <= k < j ==> !is_space(input_line@[k]),
                ensures
                    i <= j <= n,
                    forall|k: int| i <= k < j ==> !is_space(input_line@[k]),
                    j == n || is_space(input_line@[j as int]),
                decreases n - j,
            {
                let c2 = input_line.get_char(j);
                if is_space_char(c2) {
                    break;
                }
                j += 1;
            }
            assert(i < j);
            let word = input_line.substring_char(i, j);
            let has_open = check_symbol_string(word, "{{");
            let has_close = check_symbol_string(word, "}}");
            proof {
                lemma_words_at_word(input_line@, i as int, j as int);
                lemma_filter_tokens_step(
                    input_line@.subrange(i as int, j as int),
                    words_of(input_line@.skip(j as int)),
                );
            }
            let ghost prev = var_map@;
            if has_open && has_close {
                var_map.push(word.to_owned());
                proof {
                    assert(views_of(var_map@) =~= views_of(prev) + seq![word@]);
                }
            }
            i = j;
        }
    }
    proof {
        assert(input_line@.skip(n as int) =~= Seq::<char>::empty());
        assert(views_of(var_map@) + filter_tokens(words_of(Seq::<char>::empty()))
            =~= views_of(var_map@));
    }
    let r = ExpressionData {
        expression: input_line.to_owned(),
        var_map,
        gen_html: String::new(),
    };
    r
}

/// Classifies one line of template source, exactly as `classification`
/// states: tags take precedence over variables, for-tags over if-tags; lines
/// without any delimiter pair pass through as literals; tag delimiters with
/// no matching keyword are unrecognized.
pub fn get_content_type(input_line: &str) -> (r: ContentType)
    ensures
        r@ == classification(input_line@),
{
    let is_tag_expression = check_matching_pair(input_line, "{%", "%}");
    let is_for_tag = (check_symbol_string(input_line, "for") && check_symbol_string(
        input_line,
        "in",
    )) || check_symbol_string(input_line, "endfor");
    let is_if_tag = check_symbol_string(input_line, "if") || check_symbol_string(
        input_line,
        "endif",
    );
    let is_template_variable = check_matching_pair(input_line, "{{", "}}");
    if is_tag_expression && is_for_tag {
        ContentType::Tag(TagType::ForTag)
    } else if is_tag_expression && is_if_tag {
        ContentType::Tag(TagType::IfTag)
    } else if is_template_variable {
        let content = get_expression_data(input_line);
        ContentType::TemplateVariable(content)
    } else if !is_tag_expression && !is_template_variable {
        ContentType::Literal(input_line.to_owned())
    } else {
        ContentType::Unrecognized
    }
}

} // verus!
