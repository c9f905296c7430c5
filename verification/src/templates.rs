//! Markdown rendering: the page body is converted to raw HTML by comrak,
//! with raw inline HTML passed through unescaped — the page corpus is
//! trusted, author-controlled content — and fenced code blocks highlighted
//! by the shared syntect adapter.
use vstd::prelude::*;

verus! {

#[verifier::external_type_specification]
#[verifier::external_body]
pub struct ExSyntectAdapter(comrak::plugins::syntect::SyntectAdapter);

/// Relies on comrak::markdown_to_html_with_plugins, with raw HTML allowed
/// and the syntect highlighter plugged in for fenced code blocks.  What HTML
/// comes back is comrak's to decide; the enhancement passes take it from
/// there as plain text.
#[verifier::external_body]
pub fn markdown(v: &str, adapter: &comrak::plugins::syntect::SyntectAdapter) -> String {
    let mut options = comrak::ComrakOptions::default();
    options.render.unsafe_ = true;
    let mut plugins = comrak::ComrakPlugins::default();
    plugins.render.codefence_syntax_highlighter = Some(adapter);
    comrak::markdown_to_html_with_plugins(v, &options, &plugins)
}

} // verus!
