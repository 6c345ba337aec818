use markdown_to_pdf::normalize::{preprocess_markdown, preprocess_markdown_single_file};

#[test]
fn heading_gains_exactly_two_levels() {
    assert_eq!(preprocess_markdown("# H\n"), "### H\n");
    assert_eq!(preprocess_markdown("#### Deep\n"), "###### Deep\n");
}

#[test]
fn heading_is_reemitted_from_trimmed_form() {
    assert_eq!(preprocess_markdown("  ## Sub heading  \n"), "#### Sub heading\n");
}

#[test]
fn non_heading_lines_copied_verbatim() {
    assert_eq!(preprocess_markdown("plain text\n  indented\n"), "plain text\n  indented\n");
}

#[test]
fn fenced_content_is_dropped_entirely() {
    let input = "before\n```rust\nlet x = 1; // # not a heading\n```\nafter\n";
    assert_eq!(preprocess_markdown_single_file(input), "before\nafter\n");
    assert_eq!(preprocess_markdown(input), "before\nafter\n");
}

#[test]
fn fence_delimiters_are_not_retained() {
    let out = preprocess_markdown_single_file("```\nsecret\n```\n");
    assert_eq!(out, "");
    assert!(!out.contains("```"));
    assert!(!out.contains("secret"));
}

#[test]
fn headings_inside_fences_are_untouched() {
    let input = "# real\n```\n# fake\n```\n";
    assert_eq!(preprocess_markdown(input), "### real\n");
}

#[test]
fn single_file_variant_keeps_headings_verbatim() {
    assert_eq!(preprocess_markdown_single_file("# H\n\ntext\n"), "# H\n\ntext\n");
    assert_eq!(preprocess_markdown_single_file("  # spaced  \n"), "  # spaced  \n");
}

#[test]
fn offsetting_normalizer_is_not_idempotent() {
    let once = preprocess_markdown("# T\n");
    let twice = preprocess_markdown(&once);
    assert_ne!(once, twice);
    assert_eq!(once, "### T\n");
    assert_eq!(twice, "##### T\n");
}

#[test]
fn unicode_whitespace_counts_for_fence_trimming() {
    let input = "\u{a0}```\nsecret\n```\nafter\n";
    assert_eq!(preprocess_markdown_single_file(input), "after\n");
    assert_eq!(preprocess_markdown(input), "after\n");
}

#[test]
fn unicode_whitespace_counts_for_heading_trimming() {
    assert_eq!(preprocess_markdown("\u{a0}# H\n"), "### H\n");
    assert_eq!(preprocess_markdown("\u{2003}# E\n"), "### E\n");
}

#[test]
fn non_offsetting_normalizer_is_idempotent_without_carriage_returns() {
    let input = "# H\n\ntext\n```\ncode\n```\ntail\n";
    let once = preprocess_markdown_single_file(input);
    let twice = preprocess_markdown_single_file(&once);
    assert_eq!(once, twice);
}

#[test]
fn crlf_line_endings_are_normalized() {
    assert_eq!(preprocess_markdown_single_file("a\r\nb\n"), "a\nb\n");
}

#[test]
fn missing_final_newline_is_added() {
    assert_eq!(preprocess_markdown_single_file("a"), "a\n");
}

#[test]
fn empty_input_stays_empty() {
    assert_eq!(preprocess_markdown(""), "");
    assert_eq!(preprocess_markdown_single_file(""), "");
}

#[test]
fn unbalanced_fence_drops_tail() {
    assert_eq!(preprocess_markdown_single_file("a\n```\nb\nc\n"), "a\n");
}
