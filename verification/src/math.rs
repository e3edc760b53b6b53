//! The math post-processing pass over rendered HTML: locates the math spans
//! that the Markdown stage emits, decodes the HTML entities inside them,
//! renders each expression to math markup, and splices the fragments in
//! place. Text outside the spans passes through unchanged.
use vstd::prelude::*;
use crate::text::{
    match_at, find_from, find_str, str_eq, substring, lemma_find_from_is_first,
    lemma_find_from_none,
};

verus! {

/// The exact opening sentinel of a math span, including its attribute.
pub open spec fn sentinel() -> Seq<char> {
    seq![
        '<',
        's',
        'p',
        'a',
        'n',
        ' ',
        'd',
        'a',
        't',
        'a',
        '-',
        'm',
        'a',
        't',
        'h',
        '-',
        's',
        't',
        'y',
        'l',
        'e',
        '=',
        '"',
    ]
}

/// The two characters that end the style attribute.
pub open spec fn style_end() -> Seq<char> {
    seq!['"', '>']
}

/// The closing tag of a math span.
pub open spec fn close_tag() -> Seq<char> {
    seq!['<', '/', 's', 'p', 'a', 'n', '>']
}

/// The style token that selects display mode.
pub open spec fn display_text() -> Seq<char> {
    seq!['d', 'i', 's', 'p', 'l', 'a', 'y']
}

pub open spec fn gt_entity() -> Seq<char> {
    seq!['&', 'g', 't', ';']
}

pub open spec fn lt_entity() -> Seq<char> {
    seq!['&', 'l', 't', ';']
}

pub open spec fn amp_entity() -> Seq<char> {
    seq!['&', 'a', 'm', 'p', ';']
}

/// `s` with every occurrence of `pat` replaced by `rep`, scanning left to
/// right and never rescanning a replacement.
pub open spec fn spec_replace_all(s: Seq<char>, pat: Seq<char>, rep: Seq<char>) -> Seq<char>
    decreases s.len(),
    via spec_replace_all_dec
{
    if pat.len() == 0 {
        s
    } else {
        match find_from(s, pat, 0) {
            None => s,
            Some(i) => s.subrange(0, i) + rep + spec_replace_all(
                s.skip(i + pat.len() as int),
                pat,
                rep,
            ),
        }
    }
}

#[via_fn]
proof fn spec_replace_all_dec(s: Seq<char>, pat: Seq<char>, rep: Seq<char>) {
    if pat.len() > 0 {
        lemma_find_from_is_first(s, pat, 0);
    }
}

/// The three entities the Markdown stage encodes, decoded back to literal
/// characters, in the order greater-than, less-than, ampersand.
pub open spec fn spec_decode_entities(s: Seq<char>) -> Seq<char> {
    spec_replace_all(
        spec_replace_all(spec_replace_all(s, gt_entity(), seq!['>']), lt_entity(), seq!['<']),
        amp_entity(),
        seq!['&'],
    )
}

/// What the math renderer produces for a decoded expression in the given
/// mode, or nothing if the expression does not parse. A function of the
/// expression and mode alone.
pub uninterp spec fn katex_mathml(expr: Seq<char>, display: bool) -> Option<Seq<char>>;

/// Relies on katex::render_with_opts: renders a TeX expression to MathML
/// markup, in display or inline mode, and fails exactly on expressions the
/// math parser rejects. Rendering is deterministic: the result is a function
/// of the expression and the mode alone.
#[verifier::external_body]
fn katex_render(expr: &str, display: bool) -> (r: Option<String>)
    ensures
        r is Some <==> katex_mathml(expr@, display) is Some,
        r matches Some(s) ==> Some(s@) == katex_mathml(expr@, display),
{
    let opts = katex::Opts::builder()
        .display_mode(display)
        .output_type(katex::OutputType::Mathml)
        .build()
        .ok()?;
    katex::render_with_opts(expr, &opts).ok()
}

/// Renders one math expression to its markup fragment, in display or inline
/// mode; nothing exactly when the expression does not parse.
pub fn render_math(expr: &str, display: bool) -> (r: Option<String>)
    ensures
        r is Some <==> katex_mathml(expr@, display) is Some,
        r matches Some(s) ==> Some(s@) == katex_mathml(expr@, display),
{
    katex_render(expr, display)
}

/// The outcome of the math pass over a piece of HTML.
pub enum MathOutcome {
    /// Every span rendered; the whole output.
    Done(Seq<char>),
    /// A sentinel whose style attribute or closing tag never arrives.
    Unterminated,
    /// A span whose decoded expression the math renderer rejects.
    Bad(Seq<char>),
}

/// The math pass over `s`: text before the first sentinel passes through,
/// the span's expression is entity-decoded and rendered in the mode its
/// style selects, the first matching close ends the span, and the rest is
/// processed the same way.
pub open spec fn spec_extract(s: Seq<char>) -> MathOutcome
    decreases s.len(),
    via spec_extract_dec
{
    match find_from(s, sentinel(), 0) {
        None => MathOutcome::Done(s),
        Some(i) => {
            let pre = s.subrange(0, i);
            let after = s.skip(i + sentinel().len() as int);
            match find_from(after, style_end(), 0) {
                None => MathOutcome::Unterminated,
                Some(j) => {
                    let style = after.subrange(0, j);
                    let rest = after.skip(j + style_end().len() as int);
                    match find_from(rest, close_tag(), 0) {
                        None => MathOutcome::Unterminated,
                        Some(k) => {
                            let expr = spec_decode_entities(rest.subrange(0, k));
                            match katex_mathml(expr, style == display_text()) {
                                None => MathOutcome::Bad(expr),
                                Some(frag) => match spec_extract(
                                    rest.skip(k + close_tag().len() as int),
                                ) {
                                    MathOutcome::Done(tail) => MathOutcome::Done(pre + frag + tail),
                                    other => other,
                                },
                            }
                        },
                    }
                },
            }
        },
    }
}

#[via_fn]
proof fn spec_extract_dec(s: Seq<char>) {
    lemma_find_from_is_first(s, sentinel(), 0);
    match find_from(s, sentinel(), 0) {
        None => {},
        Some(i) => {
            let after = s.skip(i + sentinel().len() as int);
            lemma_find_from_is_first(after, style_end(), 0);
            match find_from(after, style_end(), 0) {
                None => {},
                Some(j) => {
                    let rest = after.skip(j + style_end().len() as int);
                    lemma_find_from_is_first(rest, close_tag(), 0);
                },
            }
        },
    }
}

/// A fault in the math pass.
#[derive(Clone, PartialEq, Eq, Debug)]
pub enum MathError {
    /// A sentinel whose style attribute or closing tag never arrives.
    Unterminated,
    /// The decoded expression the math renderer rejected.
    Render(String),
}

/// `s` with every occurrence of `pat` replaced by `rep`.
pub fn replace_all(s: &str, pat: &str, rep: &str) -> (r: String)
    requires
        pat@.len() > 0,
    ensures
        r@ == spec_replace_all(s@, pat@, rep@),
    decreases s@.len(),
{
    match find_str(s, pat, 0) {
        None => s.to_owned(),
        Some(i) => {
            proof {
                lemma_find_from_is_first(s@, pat@, 0);
            }
            let n = s.unicode_len();
            let m = pat.unicode_len();
            let mut out = substring(s, 0, i);
            out.append(rep);
            let tail_src = substring(s, i + m, n);
            proof {
                assert(s@.subrange(i + m, n as int) =~= s@.skip(i + m));
            }
            let tail = replace_all(tail_src.as_str(), pat, rep);
            out.append(tail.as_str());
            out
        },
    }
}

/// Decodes the three entities the Markdown stage encodes back to literal
/// characters.
pub fn decode_entities(s: &str) -> (r: String)
    ensures
        r@ == spec_decode_entities(s@),
{
    proof {
        reveal_strlit("&gt;");
        reveal_strlit("&lt;");
        reveal_strlit("&amp;");
        reveal_strlit(">");
        reveal_strlit("<");
        reveal_strlit("&");
        assert("&gt;"@ =~= gt_entity());
        assert("&lt;"@ =~= lt_entity());
        assert("&amp;"@ =~= amp_entity());
        assert(">"@ =~= seq!['>']);
        assert("<"@ =~= seq!['<']);
        assert("&"@ =~= seq!['&']);
    }
    let a = replace_all(s, "&gt;", ">");
    let b = replace_all(a.as_str(), "&lt;", "<");
    replace_all(b.as_str(), "&amp;", "&")
}

/// Runs the math pass over rendered HTML: every math span is replaced by its
/// rendered fragment, all other text passes through unchanged. Fails exactly
/// when a sentinel is never terminated or an expression does not render, and
/// then produces no partial output.
pub fn extract_math(html: &str) -> (r: Result<String, MathError>)
    ensures
        match r {
            Ok(o) => spec_extract(html@) == MathOutcome::Done(o@),
            Err(MathError::Unterminated) => spec_extract(html@) is Unterminated,
            Err(MathError::Render(e)) => spec_extract(html@) == MathOutcome::Bad(e@),
        },
    decreases html@.len(),
{
    proof {
        reveal_strlit("<span data-math-style=\"");
        reveal_strlit("\">");
        reveal_strlit("</span>");
        reveal_strlit("display");
        assert("<span data-math-style=\""@ =~= sentinel());
        assert("\">"@ =~= style_end());
        assert("</span>"@ =~= close_tag());
        assert("display"@ =~= display_text());
    }
    let n = html.unicode_len();
    match find_str(html, "<span data-math-style=\"", 0) {
        None => Ok(html.to_owned()),
        Some(i) => {
            proof {
                lemma_find_from_is_first(html@, "<span data-math-style=\""@, 0);
            }
            let pre = substring(html, 0, i);
            let after = substring(html, i + 23, n);
            proof {
                assert(html@.subrange(i + 23, n as int) =~= html@.skip(i + 23));
            }
            let an = after.as_str().unicode_len();
            match find_str(after.as_str(), "\">", 0) {
                None => Err(MathError::Unterminated),
                Some(j) => {
                    proof {
                        lemma_find_from_is_first(after@, "\">"@, 0);
                    }
                    let style = substring(after.as_str(), 0, j);
                    let rest = substring(after.as_str(), j + 2, an);
                    proof {
                        assert(after@.subrange(j + 2, an as int) =~= after@.skip(j + 2));
                    }
                    let rn = rest.as_str().unicode_len();
                    match find_str(rest.as_str(), "</span>", 0) {
                        None => Err(MathError::Unterminated),
                        Some(k) => {
                            proof {
                                lemma_find_from_is_first(rest@, "</span>"@, 0);
                            }
                            let raw = substring(rest.as_str(), 0, k);
                            let expr = decode_entities(raw.as_str());
                            let display = str_eq(style.as_str(), "display");
                            match katex_render(expr.as_str(), display) {
                                None => Err(MathError::Render(expr)),
                                Some(frag) => {
                                    let tail_src = substring(rest.as_str(), k + 7, rn);
                                    proof {
                                        assert(rest@.subrange(k + 7, rn as int) =~= rest@.skip(
                                            k + 7,
                                        ));
                                    }
                                    match extract_math(tail_src.as_str()) {
                                        Err(e) => Err(e),
                                        Ok(tail) => {
                                            let mut out = pre;
                                            out.append(frag.as_str());
                                            out.append(tail.as_str());
                                            Ok(out)
                                        },
                                    }
                                },
                            }
                        },
                    }
                },
            }
        },
    }
}

/// On HTML without a single math sentinel the pass is the identity: the
/// output equals the input.
pub proof fn lemma_extract_no_spans(s: Seq<char>)
    requires
        forall|k: int| 0 <= k ==> !match_at(s, sentinel(), k),
    ensures
        spec_extract(s) == MathOutcome::Done(s),
{
    lemma_find_from_none(s, sentinel(), 0);
}

} // verus!
