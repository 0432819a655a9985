use template_engine::check_matching_pair;
use template_engine::check_symbol_string;
use template_engine::get_content_type;
use template_engine::get_expression_data;
use template_engine::get_index_for_symbol;
use template_engine::ContentType;
use template_engine::TagType;

#[test]
fn symbol_contained() {
    assert!(check_symbol_string("Hello {{name}}", "{{"));
    assert!(!check_symbol_string("Hello name", "{{"));
}

#[test]
fn symbol_inside_larger_word() {
    // substring containment, not token-boundary aware
    assert!(check_symbol_string("a gift for you", "if"));
    assert!(check_symbol_string("within", "in"));
}

#[test]
fn matching_pair_any_order() {
    assert!(check_matching_pair("{% for x in y %}", "{%", "%}"));
    assert!(check_matching_pair("}} before {{", "{{", "}}"));
    assert!(!check_matching_pair("only {{ here", "{{", "}}"));
}

#[test]
fn index_of_symbol() {
    assert_eq!(get_index_for_symbol("hello", 'l'), (true, 2));
    assert_eq!(get_index_for_symbol("{{name}}", '{'), (true, 0));
    assert_eq!(get_index_for_symbol("{{name}}", '}'), (true, 6));
    assert_eq!(get_index_for_symbol("hello", 'z'), (false, 0));
}

#[test]
fn literal_line_passes_through() {
    let line = "just ordinary text";
    assert_eq!(
        get_content_type(line),
        ContentType::Literal(String::from(line))
    );
}

#[test]
fn empty_line_is_literal() {
    assert_eq!(get_content_type(""), ContentType::Literal(String::new()));
}

#[test]
fn for_tag_line() {
    assert_eq!(
        get_content_type("{% for customer in customers %}"),
        ContentType::Tag(TagType::ForTag)
    );
}

#[test]
fn endfor_tag_line() {
    assert_eq!(
        get_content_type("{% endfor %}"),
        ContentType::Tag(TagType::ForTag)
    );
}

#[test]
fn if_tag_line() {
    assert_eq!(
        get_content_type("{% if logged %}"),
        ContentType::Tag(TagType::IfTag)
    );
}

#[test]
fn endif_tag_line() {
    assert_eq!(
        get_content_type("{% endif %}"),
        ContentType::Tag(TagType::IfTag)
    );
}

#[test]
fn for_tag_takes_precedence_over_variable() {
    assert_eq!(
        get_content_type("{% for item in items %} {{item}}"),
        ContentType::Tag(TagType::ForTag)
    );
}

#[test]
fn keyword_scanning_false_positive() {
    // "gift" contains "if": substring scanning classifies this as an if-tag
    assert_eq!(
        get_content_type("{% gift %}"),
        ContentType::Tag(TagType::IfTag)
    );
}

#[test]
fn tag_pair_without_keywords_is_unrecognized() {
    assert_eq!(get_content_type("{% xyz %}"), ContentType::Unrecognized);
}

#[test]
fn variable_line() {
    let content = get_content_type("<p>{{name}}</p>");
    match content {
        ContentType::TemplateVariable(data) => {
            assert_eq!(data.expression, "<p>{{name}}</p>");
            assert_eq!(data.var_map, vec!["<p>{{name}}</p>".to_string()]);
            assert_eq!(data.gen_html, "");
        }
        other => panic!("expected a template variable, got {:?}", other),
    }
}

#[test]
fn extract_tokens_in_order() {
    let data = get_expression_data("Hello {{name}} , you are {{age}} !");
    assert_eq!(data.expression, "Hello {{name}} , you are {{age}} !");
    assert_eq!(
        data.var_map,
        vec!["{{name}}".to_string(), "{{age}}".to_string()]
    );
    assert_eq!(data.gen_html, "");
}

#[test]
fn extract_tokens_are_whole_words() {
    // tokens are the literal whitespace-delimited words: punctuation that
    // touches a token stays part of it
    let data = get_expression_data("Hello {{name}}, you are {{age}}!");
    assert_eq!(
        data.var_map,
        vec!["{{name}},".to_string(), "{{age}}!".to_string()]
    );
}

#[test]
fn extract_spacing_inside_braces_matters() {
    // with spaces inside the braces no single word carries both delimiters
    let data = get_expression_data("Hello {{ name }}, you are {{ age }}!");
    assert_eq!(data.var_map, Vec::<String>::new());
}

#[test]
fn extract_duplicate_variable_appears_twice() {
    let data = get_expression_data("{{x}} and {{x}}");
    assert_eq!(
        data.var_map,
        vec!["{{x}}".to_string(), "{{x}}".to_string()]
    );
}
