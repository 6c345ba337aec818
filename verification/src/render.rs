use vstd::prelude::*;
use vstd::string::StringExecFns;

use crate::normalize::{lemma_nonoffset_idempotent, normalized, preprocess_markdown_single_file};

verus! {

/// The hypertext fragment the external parser produces for a text, with
/// strikethrough, tables, footnotes and task lists enabled. A pure function
/// of the text alone.
pub uninterp spec fn html_of(s: Seq<char>) -> Seq<char>;

/// Relies on pulldown_cmark's `Parser::new_ext` and `html::push_html`: with a
/// fixed extension set (strikethrough, tables, footnotes, task lists) the
/// produced fragment depends on the input text alone.
#[verifier::external_body]
fn markdown_fragment(text: &str) -> (r: String)
    ensures
        r@ == html_of(text@),
{
    let mut options = pulldown_cmark::Options::empty();
    options.insert(pulldown_cmark::Options::ENABLE_STRIKETHROUGH);
    options.insert(pulldown_cmark::Options::ENABLE_TABLES);
    options.insert(pulldown_cmark::Options::ENABLE_FOOTNOTES);
    options.insert(pulldown_cmark::Options::ENABLE_TASKLISTS);
    let parser = pulldown_cmark::Parser::new_ext(text, options);
    let mut html_output = String::new();
    pulldown_cmark::html::push_html(&mut html_output, parser);
    html_output
}

/// The body colors of the two fixed palettes.
pub open spec fn palette_body(dark: bool) -> Seq<char> {
    if dark {
        "background-color: #1a1a1a; color: #e0e0e0;"@
    } else {
        "background-color: white; color: black;"@
    }
}

/// The inline/fenced code background of the two fixed palettes.
pub open spec fn palette_code(dark: bool) -> Seq<char> {
    if dark {
        "#2d2d2d"@
    } else {
        "#f5f5f5"@
    }
}

/// The table-header background of the two fixed palettes.
pub open spec fn palette_header(dark: bool) -> Seq<char> {
    if dark {
        "#3a3a3a"@
    } else {
        "#f9f9f9"@
    }
}

pub open spec fn seg_head() -> Seq<char> {
    "<!DOCTYPE html>\n<html>\n<head>\n    <meta charset=\"utf-8\">\n    <title>Markdown to PDF</title>\n    <style>\n        body {\n            font-family: -apple-system, BlinkMacSystemFont, 'Segoe UI', Roboto, sans-serif;\n            line-height: 1.6;\n            max-width: 800px;\n            margin: 0 auto;\n            padding: 20px;\n            "@
}

pub open spec fn seg_headings() -> Seq<char> {
    "\n        }\n        \n        h1, h2, h3, h4, h5, h6 {\n            margin-top: 1.5em;\n            margin-bottom: 0.5em;\n        }\n        \n        h1 { font-size: 2em; border-bottom: 2px solid #eee; padding-bottom: 0.3em; }\n        h2 { font-size: 1.5em; border-bottom: 1px solid #eee; padding-bottom: 0.3em; }\n        \n        code {\n            background-color: "@
}

pub open spec fn seg_code() -> Seq<char> {
    ";\n            padding: 2px 4px;\n            border-radius: 3px;\n            font-family: 'Courier New', monospace;\n        }\n        \n        pre {\n            background-color: "@
}

pub open spec fn seg_blocks() -> Seq<char> {
    ";\n            padding: 15px;\n            border-radius: 5px;\n            overflow-x: auto;\n        }\n        \n        pre code {\n            background-color: transparent;\n            padding: 0;\n        }\n        \n        blockquote {\n            border-left: 4px solid #ddd;\n            margin: 0;\n            padding-left: 20px;\n            color: #666;\n        }\n        \n        table {\n            border-collapse: collapse;\n            width: 100%;\n            margin: 1em 0;\n        }\n        \n        th, td {\n            border: 1px solid #ddd;\n            padding: 8px 12px;\n            text-align: left;\n        }\n        \n        th {\n            background-color: "@
}

pub open spec fn seg_tail_style() -> Seq<char> {
    ";\n            font-weight: bold;\n        }\n        \n        img {\n            max-width: 100%;\n            height: auto;\n        }\n        \n        ul, ol {\n            margin: 1em 0;\n            padding-left: 2em;\n        }\n        \n        li {\n            margin: 0.5em 0;\n        }\n    </style>\n</head>\n<body>\n"@
}

pub open spec fn seg_close() -> Seq<char> {
    "\n</body>\n</html>"@
}

/// A complete page assembled from a body fragment and the three palette
/// entries; everything else is fixed.
pub open spec fn page_with(
    fragment: Seq<char>,
    body_colors: Seq<char>,
    code_bg: Seq<char>,
    header_bg: Seq<char>,
) -> Seq<char> {
    seg_head() + body_colors + seg_headings() + code_bg + seg_code() + code_bg + seg_blocks()
        + header_bg + seg_tail_style() + fragment + seg_close()
}

/// The page for a fragment under the palette the dark-mode flag selects.
pub open spec fn page_of(fragment: Seq<char>, dark: bool) -> Seq<char> {
    page_with(fragment, palette_body(dark), palette_code(dark), palette_header(dark))
}

/// The dark-mode flag selects exactly one of two fixed palettes — body
/// colors, code background and table-header background — and no other part
/// of the page varies with it.
pub proof fn lemma_theme_selection(fragment: Seq<char>, dark: bool)
    ensures
        page_of(fragment, dark) == page_with(
            fragment,
            palette_body(dark),
            palette_code(dark),
            palette_header(dark),
        ),
        palette_body(true) == "background-color: #1a1a1a; color: #e0e0e0;"@,
        palette_body(false) == "background-color: white; color: black;"@,
        palette_code(true) == "#2d2d2d"@,
        palette_code(false) == "#f5f5f5"@,
        palette_header(true) == "#3a3a3a"@,
        palette_header(false) == "#f9f9f9"@,
{
}

/// The renderer's own normalizing pass runs exactly once no matter whether
/// the text already went through the non-offsetting normalizer: on
/// carriage-return-free text, rendering pre-normalized text yields the same
/// page as rendering the text itself.
pub proof fn lemma_prenormalized_page_unchanged(markdown: Seq<char>, dark: bool)
    requires
        forall|i: int| 0 <= i < markdown.len() ==> markdown[i] != '\r',
    ensures
        page_of(html_of(normalized(normalized(markdown, false, 0), false, 0)), dark) == page_of(
            html_of(normalized(markdown, false, 0)),
            dark,
        ),
{
    lemma_nonoffset_idempotent(markdown);
}

/// Converts source text into a complete, self-contained styled page: the
/// non-offsetting normalizer runs exactly once, the external parser converts
/// the result, and the fragment is wrapped in the fixed layout with the
/// palette the dark-mode flag selects.
pub fn markdown_to_html(markdown: &str, dark_mode: bool) -> (r: String)
    ensures
        r@ == page_of(html_of(normalized(markdown@, false, 0)), dark_mode),
{
    let processed = preprocess_markdown_single_file(markdown);
    let fragment = markdown_fragment(processed.as_str());
    let mut out = String::new();
    out.append(
        "<!DOCTYPE html>\n<html>\n<head>\n    <meta charset=\"utf-8\">\n    <title>Markdown to PDF</title>\n    <style>\n        body {\n            font-family: -apple-system, BlinkMacSystemFont, 'Segoe UI', Roboto, sans-serif;\n            line-height: 1.6;\n            max-width: 800px;\n            margin: 0 auto;\n            padding: 20px;\n            ",
    );
    if dark_mode {
        out.append("background-color: #1a1a1a; color: #e0e0e0;");
    } else {
        out.append("background-color: white; color: black;");
    }
    out.append(
        "\n        }\n        \n        h1, h2, h3, h4, h5, h6 {\n            margin-top: 1.5em;\n            margin-bottom: 0.5em;\n        }\n        \n        h1 { font-size: 2em; border-bottom: 2px solid #eee; padding-bottom: 0.3em; }\n        h2 { font-size: 1.5em; border-bottom: 1px solid #eee; padding-bottom: 0.3em; }\n        \n        code {\n            background-color: ",
    );
    if dark_mode {
        out.append("#2d2d2d");
    } else {
        out.append("#f5f5f5");
    }
    out.append(
        ";\n            padding: 2px 4px;\n            border-radius: 3px;\n            font-family: 'Courier New', monospace;\n        }\n        \n        pre {\n            background-color: ",
    );
    if dark_mode {
        out.append("#2d2d2d");
    } else {
        out.append("#f5f5f5");
    }
    out.append(
        ";\n            padding: 15px;\n            border-radius: 5px;\n            overflow-x: auto;\n        }\n        \n        pre code {\n            background-color: transparent;\n            padding: 0;\n        }\n        \n        blockquote {\n            border-left: 4px solid #ddd;\n            margin: 0;\n            padding-left: 20px;\n            color: #666;\n        }\n        \n        table {\n            border-collapse: collapse;\n            width: 100%;\n            margin: 1em 0;\n        }\n        \n        th, td {\n            border: 1px solid #ddd;\n            padding: 8px 12px;\n            text-align: left;\n        }\n        \n        th {\n            background-color: ",
    );
    if dark_mode {
        out.append("#3a3a3a");
    } else {
        out.append("#f9f9f9");
    }
    out.append(
        ";\n            font-weight: bold;\n        }\n        \n        img {\n            max-width: 100%;\n            height: auto;\n        }\n        \n        ul, ol {\n            margin: 1em 0;\n            padding-left: 2em;\n        }\n        \n        li {\n            margin: 0.5em 0;\n        }\n    </style>\n</head>\n<body>\n",
    );
    out.append(fragment.as_str());
    out.append("\n</body>\n</html>");
    proof {
        assert(out@ =~= page_of(html_of(normalized(markdown@, false, 0)), dark_mode));
    }
    out
}

} // verus!
