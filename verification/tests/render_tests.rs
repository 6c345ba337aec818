use markdown_to_pdf::assemble::create_combined_markdown;
use markdown_to_pdf::discover::{group_documents, make_document};
use markdown_to_pdf::pipeline::{data_uri_of, plan_input, ErrorKind, InputPlan};
use markdown_to_pdf::render::markdown_to_html;

fn doc(path: &str, content: &str) -> markdown_to_pdf::discover::SourceDocument {
    make_document(String::from(path), String::from(content))
}

#[test]
fn composite_nests_documents_under_group_headings() {
    let docs = vec![doc("notes/a.md", "# A\n"), doc("notes/b.md", "# B\n")];
    let groups = group_documents(docs).unwrap();
    let combined = create_combined_markdown(groups, "Docs");
    let expected = "# Docs\n\n# notes\n\n## a\n\n### A\n\n\n---\n\n## b\n\n### B\n\n\n---\n\n";
    assert_eq!(combined, expected);
    let title = combined.find("# Docs").unwrap();
    let group = combined.find("# notes").unwrap();
    let sub_a = combined.find("## a").unwrap();
    let deep_a = combined.find("### A").unwrap();
    let sub_b = combined.find("## b").unwrap();
    let deep_b = combined.find("### B").unwrap();
    assert!(title < group && group < sub_a && sub_a < deep_a && deep_a < sub_b && sub_b < deep_b);
}

#[test]
fn root_group_gets_no_section_heading() {
    let groups = group_documents(vec![doc("top.md", "body\n")]).unwrap();
    let combined = create_combined_markdown(groups, "T");
    assert_eq!(combined, "# T\n\n## top\n\nbody\n\n\n---\n\n");
    assert!(!combined.contains("# Root"));
}

#[test]
fn assembler_is_deterministic() {
    let make = || {
        group_documents(vec![doc("notes/a.md", "# A\n"), doc("notes/b.md", "# B\n")]).unwrap()
    };
    let first = create_combined_markdown(make(), "Docs");
    let second = create_combined_markdown(make(), "Docs");
    assert_eq!(first, second);
}

#[test]
fn dark_flag_selects_exactly_one_palette() {
    let light = markdown_to_html("x", false);
    let dark = markdown_to_html("x", true);
    assert!(light.contains("background-color: white; color: black;"));
    assert!(light.contains("#f5f5f5"));
    assert!(light.contains("#f9f9f9"));
    assert!(!light.contains("#1a1a1a"));
    assert!(!light.contains("#2d2d2d"));
    assert!(!light.contains("#3a3a3a"));
    assert!(dark.contains("background-color: #1a1a1a; color: #e0e0e0;"));
    assert!(dark.contains("#2d2d2d"));
    assert!(dark.contains("#3a3a3a"));
    assert!(!dark.contains("background-color: white"));
    assert!(!dark.contains("#f5f5f5"));
    assert!(!dark.contains("#f9f9f9"));
}

#[test]
fn single_file_page_renders_title_heading() {
    let page = markdown_to_html("# Title\n\ntext\n", false);
    assert!(page.contains("background-color: white; color: black;"));
    assert!(page.contains("<h1>Title</h1>"));
    assert!(page.contains("<p>text</p>"));
    assert!(page.starts_with("<!DOCTYPE html>"));
    assert!(page.ends_with("</html>"));
}

#[test]
fn page_drops_fenced_code_before_parsing() {
    let page = markdown_to_html("para\n\n```\nhidden secret\n```\n", false);
    assert!(page.contains("<p>para</p>"));
    assert!(!page.contains("hidden secret"));
}

#[test]
fn input_plan_covers_the_error_taxonomy() {
    assert_eq!(plan_input(false, false, false, false), Err(ErrorKind::InputNotFound));
    assert_eq!(plan_input(true, true, false, true), Ok(InputPlan::SingleFile));
    assert_eq!(plan_input(true, true, false, false), Err(ErrorKind::InvalidInputKind));
    assert_eq!(plan_input(true, false, true, false), Ok(InputPlan::DirectoryScan));
    assert_eq!(plan_input(true, false, false, false), Err(ErrorKind::InvalidInputKind));
}

#[test]
fn data_uri_carries_the_page_as_base64() {
    let uri = data_uri_of("<p>hi</p>");
    let prefix = "data:text/html;charset=utf-8;base64,";
    assert!(uri.starts_with(prefix));
    let decoded =
        base64::Engine::decode(&base64::engine::general_purpose::STANDARD, &uri[prefix.len()..])
            .unwrap();
    assert_eq!(decoded, b"<p>hi</p>");
}
