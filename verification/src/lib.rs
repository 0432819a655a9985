//! A minimal line-oriented template engine.
//!
//! Each line of a template is classified as literal text, a `{{ name }}`
//! variable expression, a `{% ... %}` control-flow tag marker, or
//! unrecognized text. For variable lines, the whitespace-delimited tokens
//! carrying both `{{` and `}}` are extracted in order of appearance, and a
//! later substitution step rewrites the line with values drawn from a
//! caller-supplied context mapping.

pub mod content;
pub mod context;
pub mod laws;
pub mod scanner;
pub mod substitute;
pub mod words;

pub use content::ContentType;
pub use content::ExpressionData;
pub use content::TagType;
pub use content::get_content_type;
pub use content::get_expression_data;
pub use context::Context;
pub use scanner::check_symbol_string;
pub use scanner::check_matching_pair;
pub use scanner::get_index_for_symbol;
pub use substitute::TemplateError;
pub use substitute::generate_html_template_var;
