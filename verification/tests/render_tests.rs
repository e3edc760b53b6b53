use site::render::render_markdown;
use site::math::{extract_math, decode_entities, render_math, MathError};

#[test]
fn rendering_is_deterministic() {
    let body = "# Title\n\nSome *emphasis*, a [link](https://example.org), and `code`.\n";
    let first = render_markdown(body);
    let second = render_markdown(body);
    assert_eq!(first.as_bytes(), second.as_bytes());
}

#[test]
fn rendering_actually_renders() {
    let html = render_markdown("*hi*");
    assert!(html.contains("<em>hi</em>"));
    assert_ne!(html, "*hi*");
}

#[test]
fn rendering_supports_strikethrough_and_tables() {
    let html = render_markdown("~~gone~~\n\n| a | b |\n|---|---|\n| 1 | 2 |\n");
    assert!(html.contains("<del>gone</del>"));
    assert!(html.contains("<table>"));
}

#[test]
fn rendering_autolinks_bare_urls() {
    let html = render_markdown("see https://example.org now");
    assert!(html.contains("<a href=\"https://example.org\">"));
}

#[test]
fn rendering_passes_raw_html_through() {
    let html = render_markdown("before\n\n<div class=\"x\">kept</div>\n");
    assert!(html.contains("<div class=\"x\">kept</div>"));
}

#[test]
fn rendering_emits_math_spans_for_dollars() {
    let html = render_markdown("inline $x$ and display $$y$$");
    assert!(html.contains("<span data-math-style=\"inline\">x</span>"));
    assert!(html.contains("<span data-math-style=\"display\">y</span>"));
}

#[test]
fn rendering_highlights_fenced_code() {
    let html = render_markdown("```rust\nlet x = 1;\n```\n");
    assert!(html.contains("<pre"));
    assert!(html.contains("<span class="));
}

#[test]
fn decode_entities_decodes_the_three() {
    assert_eq!(decode_entities("a&gt;b&lt;c&amp;d"), "a>b<c&d");
}

#[test]
fn decode_entities_is_ordered() {
    assert_eq!(decode_entities("&amp;gt;"), "&gt;");
}

#[test]
fn math_pass_is_identity_without_spans() {
    let html = "<p>No math here, not even a span</p>";
    assert_eq!(extract_math(html).expect("should pass"), html);
}

#[test]
fn math_pass_identity_on_plain_span() {
    let html = "<p><span class=\"x\">not math</span></p>";
    assert_eq!(extract_math(html).expect("should pass"), html);
}

#[test]
fn math_renders_differently_from_input() {
    let frag = render_math("x", false).expect("x should render");
    assert_ne!(frag, "x");
    assert!(frag.contains("<math"));
}

#[test]
fn math_pass_replaces_single_span() {
    let html = "before <span data-math-style=\"inline\">x+1</span> after";
    let out = extract_math(html).expect("should render");
    let frag = render_math("x+1", false).expect("should render");
    assert_eq!(out, format!("before {} after", frag));
}

#[test]
fn math_pass_uses_display_mode() {
    let html = "<span data-math-style=\"display\">x</span>";
    let out = extract_math(html).expect("should render");
    assert_eq!(out, render_math("x", true).expect("should render"));
    assert_ne!(out, render_math("x", false).expect("should render"));
}

#[test]
fn math_pass_handles_adjacent_spans_independently() {
    let html = "<span data-math-style=\"inline\">x&gt;0</span><span data-math-style=\"display\">y&lt;1</span>";
    let out = extract_math(html).expect("should render");
    let first = render_math("x>0", false).expect("should render");
    let second = render_math("y<1", true).expect("should render");
    assert_eq!(out, format!("{}{}", first, second));
}

#[test]
fn math_pass_decodes_entities_before_rendering() {
    let html = "<span data-math-style=\"inline\">a &gt; b</span>";
    let out = extract_math(html).expect("should render");
    assert_eq!(out, render_math("a > b", false).expect("should render"));
}

#[test]
fn math_pass_fails_on_unterminated_span() {
    let html = "text <span data-math-style=\"inline\">x";
    assert_eq!(extract_math(html).unwrap_err(), MathError::Unterminated);
}

#[test]
fn math_pass_fails_on_missing_close_tag() {
    let html = "<span data-math-style=\"inline\">x\"> no close";
    assert_eq!(extract_math(html).unwrap_err(), MathError::Unterminated);
}

#[test]
fn math_pass_reports_the_failing_expression() {
    let html = "<span data-math-style=\"inline\">\\frac</span>";
    match extract_math(html).unwrap_err() {
        MathError::Render(expr) => assert_eq!(expr, "\\frac"),
        other => panic!("expected a render fault, got {:?}", other),
    }
}

#[test]
fn math_pass_emits_no_partial_output_on_failure() {
    let html = "<span data-math-style=\"inline\">x</span><span data-math-style=\"display\">\\frac</span>";
    assert!(extract_math(html).is_err());
}
