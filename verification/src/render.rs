//! Markdown-to-HTML rendering. The conversion itself is done by an outside
//! renderer under a fixed extension configuration; its output is named by an
//! uninterpreted function, which makes determinism part of the contract:
//! equal bodies always render to byte-identical HTML.
use vstd::prelude::*;

verus! {

/// What the Markdown renderer produces for a given body under this crate's
/// fixed extension configuration. A function of the body alone.
pub uninterp spec fn markdown_html(body: Seq<char>) -> Seq<char>;

/// Relies on comrak::markdown_to_html_with_plugins: CommonMark rendering
/// with strikethrough, tables, autolinking, footnotes, heading anchor ids,
/// dollar-delimited math spans, raw HTML passed through, and fenced code
/// highlighted through the syntect adapter. With this fixed configuration
/// the output is a deterministic function of the body alone.
#[verifier::external_body]
fn comrak_html(body: &str) -> (r: String)
    ensures
        r@ == markdown_html(body@),
{
    let adapter = comrak::plugins::syntect::SyntectAdapter::new(None);
    let mut options = comrak::Options::default();
    options.extension.strikethrough = true;
    options.extension.table = true;
    options.extension.autolink = true;
    options.extension.footnotes = true;
    options.extension.header_ids = Some(String::new());
    options.extension.math_dollars = true;
    options.render.unsafe_ = true;
    let mut plugins = comrak::Plugins::default();
    plugins.render.codefence_syntax_highlighter = Some(&adapter);
    comrak::markdown_to_html_with_plugins(body, &options, &plugins)
}

/// Converts a Markdown body to HTML. Deterministic: the result is a function
/// of the body alone, so rendering the same body twice yields identical
/// bytes.
pub fn render_markdown(body: &str) -> (r: String)
    ensures
        r@ == markdown_html(body@),
{
    comrak_html(body)
}

/// Rendering is deterministic: any two renderings of the same body yield
/// byte-identical HTML.
pub proof fn lemma_render_deterministic(body: Seq<char>, r1: Seq<char>, r2: Seq<char>)
    requires
        r1 == markdown_html(body),
        r2 == markdown_html(body),
    ensures
        r1 == r2,
{
}

} // verus!
