use template_engine::generate_html_template_var;
use template_engine::get_expression_data;
use template_engine::Context;
use template_engine::ExpressionData;
use template_engine::TemplateError;

fn ada_context() -> Context {
    let mut context = Context::new();
    context.insert("name".to_string(), "Ada".to_string());
    context.insert("age".to_string(), "36".to_string());
    context
}

#[test]
fn substitute_single_variable() {
    let mut data = get_expression_data("Hi {{name}}");
    let result = generate_html_template_var(&mut data, &ada_context());
    assert_eq!(result, Ok(()));
    assert_eq!(data.gen_html, "Hi Ada");
    assert_eq!(data.expression, "Hi {{name}}");
    assert_eq!(data.var_map, vec!["{{name}}".to_string()]);
}

#[test]
fn substitute_multiple_variables() {
    let mut data = get_expression_data("Hello {{name}} , you are {{age}} !");
    let result = generate_html_template_var(&mut data, &ada_context());
    assert_eq!(result, Ok(()));
    assert_eq!(data.gen_html, "Hello Ada , you are 36 !");
}

#[test]
fn substitute_tokens_carry_their_punctuation() {
    // the captured token includes the punctuation glued to it, so the
    // replacement swallows that punctuation too
    let mut data = get_expression_data("Hello {{name}}, you are {{age}}!");
    let result = generate_html_template_var(&mut data, &ada_context());
    assert_eq!(result, Ok(()));
    assert_eq!(data.gen_html, "Hello Ada you are 36");
}

#[test]
fn substitute_replaces_every_occurrence() {
    let mut data = get_expression_data("{{x}} and {{x}}");
    let mut context = Context::new();
    context.insert("x".to_string(), "7".to_string());
    let result = generate_html_template_var(&mut data, &context);
    assert_eq!(result, Ok(()));
    assert_eq!(data.gen_html, "7 and 7");
}

#[test]
fn second_substitution_is_a_no_op() {
    let mut data = get_expression_data("Hi {{name}}");
    let context = ada_context();
    assert_eq!(generate_html_template_var(&mut data, &context), Ok(()));
    let first = data.gen_html.clone();
    assert_eq!(generate_html_template_var(&mut data, &context), Ok(()));
    assert_eq!(data.gen_html, first);
    assert_eq!(data.gen_html, "Hi Ada");
}

#[test]
fn missing_context_value_is_reported() {
    let mut data = get_expression_data("Hi {{name}}");
    let context = Context::new();
    let result = generate_html_template_var(&mut data, &context);
    assert_eq!(
        result,
        Err(TemplateError::MissingContextValue("name".to_string()))
    );
    // nothing was changed
    assert_eq!(data.gen_html, "");
    assert_eq!(data.expression, "Hi {{name}}");
}

#[test]
fn missing_key_names_the_first_unbound_variable() {
    let mut data = get_expression_data("{{name}} is {{age}}");
    let mut context = Context::new();
    context.insert("name".to_string(), "Ada".to_string());
    let result = generate_html_template_var(&mut data, &context);
    assert_eq!(
        result,
        Err(TemplateError::MissingContextValue("age".to_string()))
    );
}

#[test]
fn malformed_token_is_reported() {
    // the word "}}{{" carries both delimiters, so it is extracted as a
    // token, but its first `}` comes before its first `{`
    let mut data = get_expression_data("}}{{");
    assert_eq!(data.var_map, vec!["}}{{".to_string()]);
    let result = generate_html_template_var(&mut data, &ada_context());
    assert_eq!(
        result,
        Err(TemplateError::MalformedToken("}}{{".to_string()))
    );
    assert_eq!(data.gen_html, "");
}

#[test]
fn malformed_token_built_by_hand() {
    let mut data = ExpressionData {
        expression: "irrelevant".to_string(),
        var_map: vec!["{}".to_string()],
        gen_html: String::new(),
    };
    let result = generate_html_template_var(&mut data, &ada_context());
    assert_eq!(result, Err(TemplateError::MalformedToken("{}".to_string())));
}

#[test]
fn context_later_insertion_wins() {
    let mut context = Context::new();
    context.insert("k".to_string(), "old".to_string());
    context.insert("k".to_string(), "new".to_string());
    let mut data = get_expression_data("{{k}}");
    assert_eq!(generate_html_template_var(&mut data, &context), Ok(()));
    assert_eq!(data.gen_html, "new");
}

#[test]
fn round_trip_leaves_no_residual_delimiters() {
    let mut data = get_expression_data("Greetings {{user}} and {{other}} .");
    let mut context = Context::new();
    context.insert("user".to_string(), "Bob".to_string());
    context.insert("other".to_string(), "Eve".to_string());
    assert_eq!(generate_html_template_var(&mut data, &context), Ok(()));
    assert_eq!(data.gen_html, "Greetings Bob and Eve .");
    assert!(!data.gen_html.contains("{{"));
    assert!(!data.gen_html.contains("}}"));
}

#[test]
fn substitution_keeps_expression_and_tokens() {
    let mut data = get_expression_data("{{a}} {{b}}");
    let mut context = Context::new();
    context.insert("a".to_string(), "1".to_string());
    context.insert("b".to_string(), "2".to_string());
    assert_eq!(generate_html_template_var(&mut data, &context), Ok(()));
    assert_eq!(data.expression, "{{a}} {{b}}");
    assert_eq!(
        data.var_map,
        vec!["{{a}}".to_string(), "{{b}}".to_string()]
    );
    assert_eq!(data.gen_html, "1 2");
}

#[test]
fn empty_name_token_looks_up_empty_key() {
    let mut data = get_expression_data("{{}}");
    let mut context = Context::new();
    context.insert(String::new(), "void".to_string());
    assert_eq!(generate_html_template_var(&mut data, &context), Ok(()));
    assert_eq!(data.gen_html, "void");
}
