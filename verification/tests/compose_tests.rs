use pdfbuilder::compose::{build_html, generate_toc_from_html};
use pdfbuilder::config::{Config, OutputConfig};
use pdfbuilder::error::AppError;
use pdfbuilder::init::init_project_files;
use pdfbuilder::resolver::{FileEntry, preprocess_markdown};

fn b(s: &str) -> Vec<u8> {
    s.as_bytes().to_vec()
}

fn s(v: &[u8]) -> String {
    String::from_utf8(v.to_vec()).unwrap()
}

fn config(syntax_theme: &str) -> Config {
    Config {
        title: b("Test Book"),
        author: b("Test Author"),
        language: b("en"),
        theme: b("dark"),
        syntax_theme: b(syntax_theme),
        source: b("main.md"),
        custom_css: None,
        output: OutputConfig { filename: b("test-book") },
    }
}

#[test]
fn test_build_html_unknown_syntax_theme() {
    let result = build_html(&config("NoSuchThemeAnywhere"), &b("# Title"), None, None);
    match result {
        Err(AppError::UnknownSyntaxTheme(name)) => assert_eq!(name, b("NoSuchThemeAnywhere")),
        other => panic!("expected an unknown-theme error, got {:?}", other),
    }
}

#[test]
fn test_build_html_basic_document() {
    let doc = build_html(&config("InspiredGitHub"), &b("# Title\n\nText."), None, None).unwrap();
    let doc = s(&doc);
    assert!(doc.starts_with("<!DOCTYPE html><html lang=\"en\">"));
    assert!(doc.contains("<title>Test Book</title>"));
    assert!(doc.contains("<meta name=\"author\" content=\"Test Author\">"));
    assert!(doc.contains("<h1>Title</h1>"));
    assert!(doc.ends_with("</main></body></html>"));
    // No theme stylesheet was handed in, so the built-in default is inlined.
    assert!(doc.contains("page-break-before: always"));
}

#[test]
fn test_build_html_custom_css_appended() {
    let doc = build_html(
        &config("InspiredGitHub"),
        &b("plain text"),
        Some(b("body { color: red; }")),
        Some(b(".mine { margin: 0; }")),
    )
    .unwrap();
    let doc = s(&doc);
    assert!(doc.contains("body { color: red; }"));
    assert!(doc.contains("/* Custom CSS */"));
    assert!(doc.contains(".mine { margin: 0; }"));
}

#[test]
fn test_build_html_highlights_code_blocks() {
    let md = b("# T\n\n```rust\nfn main() {}\n```\n");
    let doc = s(&build_html(&config("InspiredGitHub"), &md, None, None).unwrap());
    // The rendered block is replaced by the highlighter's markup.
    assert!(!doc.contains("class=\"language-rust\""));
    assert!(doc.contains("<pre"));
}

#[test]
fn test_build_html_unknown_language_token_falls_back() {
    // An unrecognized language token is not an error: the block is still
    // replaced, highlighted with the plain-text syntax.
    let md = b("# T\n\n```zzznotalanguage\nplain words\n```\n");
    let doc = s(&build_html(&config("InspiredGitHub"), &md, None, None).unwrap());
    assert!(!doc.contains("class=\"language-zzznotalanguage\""));
    assert!(doc.contains("plain words"));
}

#[test]
fn test_generate_toc_from_html_nested() {
    let html = b("<h1>Main</h1><p>x</p><h2>Chapter <em>One</em></h2><h2></h2>");
    let toc = s(&generate_toc_from_html(&html));
    assert!(toc.contains("toc-entry-h1"));
    assert!(toc.contains("toc-entry-h2"));
    assert!(toc.contains("Main"));
    // Nested inline markup flattens into plain text.
    assert!(toc.contains("Chapter One"));
    // The empty heading is dropped, so exactly two entries exist.
    assert_eq!(toc.matches("toc-entry-title").count(), 2);
}

#[test]
fn test_generate_toc_from_html_empty() {
    assert_eq!(generate_toc_from_html(&b("<p>no headings here</p>")), b(""));
}

#[test]
fn test_end_to_end_two_file_project() {
    // A two-file project: the table of contents lands where the placeholder
    // stood, before the spliced chapter, and lists both headings in order.
    let files = vec![
        FileEntry { path: b("main.md"), content: b("# Title\n!toc\n!include(sub.md)") },
        FileEntry { path: b("sub.md"), content: b("## Section A") },
    ];
    let mut visited: Vec<Vec<u8>> = Vec::new();
    let merged = preprocess_markdown(&files, &b("main.md"), &mut visited).unwrap();
    let doc = s(&build_html(&config("InspiredGitHub"), &merged, None, None).unwrap());

    let toc_at = doc.find("<div class=\"toc\">").expect("toc block missing");
    let section_heading_at = doc.find("<h2>Section A</h2>").expect("section heading missing");
    assert!(toc_at < section_heading_at);

    let title_entry = doc.find("toc-entry toc-entry-h1").expect("title entry missing");
    let section_entry = doc.find("toc-entry toc-entry-h2").expect("section entry missing");
    assert!(title_entry < section_entry);
    assert_eq!(doc.matches("<span class=\"toc-entry-title\">").count(), 2);
    let title_at = doc[title_entry..].find("Title").unwrap() + title_entry;
    let section_at = doc[section_entry..].find("Section A").unwrap() + section_entry;
    assert!(title_at < section_at);
    assert!(!doc.contains("<!--TOC_PLACEHOLDER-->"));
}

#[test]
fn test_init_project_files_defaults() {
    let (cfg, main_md, chapter) = init_project_files(None, None, None);
    let cfg = s(&cfg);
    assert!(cfg.contains("title: \"My Awesome PDF\""));
    assert!(cfg.contains("author: \"Your Name\""));
    assert!(cfg.contains("language: \"en\""));
    assert!(cfg.contains("filename: \"my-awesome-pdf\""));
    let main_md = s(&main_md);
    assert!(main_md.starts_with("# My Awesome PDF\nBy Your Name\n"));
    assert!(main_md.contains("!include(chapters/chapter1.md)"));
    assert_eq!(s(&chapter), "## Chapter 1\n\nContent of chapter 1.");
}

#[test]
fn test_init_project_files_custom_title() {
    let (cfg, main_md, _) = init_project_files(Some(b("My Book")), None, None);
    let cfg = s(&cfg);
    assert!(cfg.contains("title: \"My Book\""));
    assert!(cfg.contains("filename: \"my-book\""));
    assert!(s(&main_md).contains("# My Book"));
}
