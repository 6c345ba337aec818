use markdown_to_pdf::discover::{
    derive_group_key, derive_title, group_documents, has_markdown_extension, make_document,
};
use markdown_to_pdf::pipeline::ErrorKind;

fn doc(path: &str, content: &str) -> markdown_to_pdf::discover::SourceDocument {
    make_document(String::from(path), String::from(content))
}

#[test]
fn title_is_the_file_stem() {
    assert_eq!(derive_title("a/x.md"), "x");
    assert_eq!(derive_title("read me.md"), "read me");
    assert_eq!(derive_title("x.tar.md"), "x.tar");
}

#[test]
fn title_falls_back_for_empty_stem() {
    assert_eq!(derive_title(""), "Untitled");
}

#[test]
fn leading_dot_name_is_its_own_stem() {
    assert_eq!(derive_title("a/.md"), ".md");
}

#[test]
fn extension_match_is_case_sensitive_and_exact() {
    assert!(has_markdown_extension("a.md"));
    assert!(has_markdown_extension("dir/sub/x.tar.md"));
    assert!(!has_markdown_extension("a.MD"));
    assert!(!has_markdown_extension("amd"));
    assert!(!has_markdown_extension(".md"));
    assert!(!has_markdown_extension("a.markdown"));
    assert!(!has_markdown_extension("dir.md/x.txt"));
}

#[test]
fn group_key_is_a_breadcrumb() {
    assert_eq!(derive_group_key("top.md"), "Root");
    assert_eq!(derive_group_key("a/x.md"), "a");
    assert_eq!(derive_group_key("a/b/c.md"), "a > b");
}

#[test]
fn grouping_collects_by_directory_in_key_order() {
    let docs = vec![
        doc("b/z.md", "z body"),
        doc("a/y.md", "y body"),
        doc("top.md", "top body"),
        doc("a/x.md", "x body"),
    ];
    let groups = group_documents(docs).unwrap();
    assert_eq!(groups.len(), 3);
    assert_eq!(groups[0].key, "Root");
    assert_eq!(groups[1].key, "a");
    assert_eq!(groups[2].key, "b");
    assert_eq!(groups[0].documents.len(), 1);
    assert_eq!(groups[0].documents[0].title, "top");
    assert_eq!(groups[1].documents.len(), 2);
    assert_eq!(groups[1].documents[0].title, "x");
    assert_eq!(groups[1].documents[1].title, "y");
    assert_eq!(groups[2].documents.len(), 1);
    assert_eq!(groups[2].documents[0].title, "z");
    assert_eq!(groups[2].documents[0].content, "z body");
}

#[test]
fn empty_scan_is_an_error() {
    let r = group_documents(Vec::new());
    assert_eq!(r.err(), Some(ErrorKind::EmptyInput));
}
