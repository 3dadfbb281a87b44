use pdfbuilder::error::AppError;
use pdfbuilder::resolver::{FileEntry, preprocess_markdown};

fn b(s: &str) -> Vec<u8> {
    s.as_bytes().to_vec()
}

fn s(v: &[u8]) -> String {
    String::from_utf8(v.to_vec()).unwrap()
}

fn file(path: &str, content: &str) -> FileEntry {
    FileEntry { path: b(path), content: b(content) }
}

fn run(files: Vec<FileEntry>, start: &str) -> Result<String, AppError> {
    let mut visited: Vec<Vec<u8>> = Vec::new();
    preprocess_markdown(&files, &b(start), &mut visited).map(|out| s(&out))
}

#[test]
fn test_preprocess_markdown_simple() {
    let result = run(vec![file("main.md", "Hello World")], "main.md").unwrap();
    assert_eq!(result.trim(), "Hello World");
}

#[test]
fn test_preprocess_markdown_with_nested_file() {
    let files = vec![
        file("main.md", "Book\n!include(chap1.md)"),
        file("chap1.md", "Content of chapter 1"),
    ];
    let result = run(files, "main.md").unwrap();
    assert!(result.contains("Book"));
    assert!(result.contains("Content of chapter 1"));
}

#[test]
fn test_preprocess_markdown_depth_first_order() {
    // The assembled output is the depth-first expansion, in directive order.
    let files = vec![
        file("main.md", "start\n!include(a.md)\n!include(b.md)\nend"),
        file("a.md", "alpha\n!include(c.md)"),
        file("b.md", "beta"),
        file("c.md", "gamma"),
    ];
    let result = run(files, "main.md").unwrap();
    assert_eq!(result, "start\nalpha\ngamma\n\n\nbeta\n\nend\n");
}

#[test]
fn test_preprocess_markdown_circular_dependency() {
    let files = vec![file("a.md", "!include(b.md)"), file("b.md", "!include(a.md)")];
    let result = run(files, "a.md");
    assert!(matches!(result, Err(AppError::CircularDependency(_))));
}

#[test]
fn test_preprocess_markdown_self_cycle() {
    let files = vec![file("a.md", "!include(a.md)")];
    let result = run(files, "a.md");
    match result {
        Err(AppError::CircularDependency(p)) => assert_eq!(p, b("a.md")),
        other => panic!("expected a cycle error, got {:?}", other),
    }
}

#[test]
fn test_preprocess_markdown_repeated_target_rejected() {
    // The visited set spans the whole build: naming the same file twice,
    // even without a back edge, is reported as a circular dependency.
    let files = vec![
        file("main.md", "!include(a.md)\n!include(a.md)"),
        file("a.md", "alpha"),
    ];
    let result = run(files, "main.md");
    assert!(matches!(result, Err(AppError::CircularDependency(_))));
}

#[test]
fn test_preprocess_markdown_file_not_found() {
    let files = vec![file("main.md", "!include(nonexistent.md)")];
    let result = run(files, "main.md");
    match result {
        Err(AppError::SourceNotFound(p)) => assert_eq!(p, b("nonexistent.md")),
        other => panic!("expected a missing-file error, got {:?}", other),
    }
}

#[test]
fn test_preprocess_markdown_path_traversal() {
    let files = vec![file("main.md", "!include(../../secret.txt)")];
    let result = run(files, "main.md");
    assert!(matches!(result, Err(AppError::UnauthorizedAccess(_))));
}

#[test]
fn test_preprocess_markdown_path_traversal_from_nested_file() {
    // An upward traversal from a nested including file escapes even though
    // one `..` alone would stay inside the root.
    let files = vec![
        file("main.md", "!include(chapters/ch1.md)"),
        file("chapters/ch1.md", "!include(../../secret.md)"),
        file("secret.md", "hidden"),
    ];
    let result = run(files, "main.md");
    match result {
        Err(AppError::UnauthorizedAccess(p)) => assert_eq!(p, b("chapters/../../secret.md")),
        other => panic!("expected a sandbox error, got {:?}", other),
    }
}

#[test]
fn test_preprocess_markdown_dotdot_inside_root_allowed() {
    // A `..` that stays below the root is fine: legitimate relative paths
    // between sibling directories keep working.
    let files = vec![
        file("main.md", "!include(chapters/ch1.md)"),
        file("chapters/ch1.md", "!include(../notes.md)"),
        file("notes.md", "note text"),
    ];
    let result = run(files, "main.md").unwrap();
    assert!(result.contains("note text"));
}

#[test]
fn test_preprocess_markdown_absolute_path_rejected() {
    let files = vec![file("main.md", "!include(/etc/passwd)")];
    let result = run(files, "main.md");
    assert!(matches!(result, Err(AppError::UnauthorizedAccess(_))));
}

#[test]
fn test_preprocess_markdown_ignores_directive_in_code_block() {
    let files = vec![file("main.md", "Example:\n```\n!include(some/file.md)\n```")];
    let result = run(files, "main.md").unwrap();
    assert!(result.contains("!include(some/file.md)"));
}

#[test]
fn test_preprocess_markdown_ignores_newpage_in_code_block() {
    let files = vec![file("main.md", "Example:\n```\n!newpage\n```")];
    let result = run(files, "main.md").unwrap();
    assert!(result.contains("!newpage"));
    assert!(!result.contains("<div class=\"page-break\"></div>"));
}

#[test]
fn test_preprocess_markdown_handles_newpage() {
    let files = vec![file("main.md", "Line 1\n!newpage\nLine 2")];
    let result = run(files, "main.md").unwrap();
    assert!(result.contains("<div class=\"page-break\"></div>"));
    assert!(!result.contains("!newpage"));
}

#[test]
fn test_preprocess_markdown_handles_toc() {
    let files = vec![file("main.md", "# Title\n!toc\n## Chapter 1")];
    let result = run(files, "main.md").unwrap();
    assert!(result.contains("<!--TOC_PLACEHOLDER-->"));
    assert!(!result.contains("!toc"));
}

#[test]
fn test_preprocess_markdown_ignores_toc_in_code_block() {
    let files = vec![file("main.md", "Example:\n```\n!toc\n```")];
    let result = run(files, "main.md").unwrap();
    assert!(result.contains("!toc"));
    assert!(!result.contains("<!--TOC_PLACEHOLDER-->"));
}

#[test]
fn test_preprocess_markdown_directive_after_closed_fence() {
    // The same directive substitutes outside a fence and stays inside one.
    let files = vec![file("main.md", "```\n!newpage\n```\n!newpage")];
    let result = run(files, "main.md").unwrap();
    assert!(result.contains("!newpage"));
    assert!(result.contains("<div class=\"page-break\"></div>"));
}

#[test]
fn test_preprocess_markdown_whitespace_tolerant_directives() {
    let files = vec![
        file("main.md", "  !toc  \n\t!newpage\t\n   !include( chap.md )"),
        file(" chap.md ", "chapter"),
    ];
    let result = run(files, "main.md").unwrap();
    assert!(result.contains("<!--TOC_PLACEHOLDER-->"));
    assert!(result.contains("<div class=\"page-break\"></div>"));
    assert!(result.contains("chapter"));
}

#[test]
fn test_preprocess_markdown_crlf_lines() {
    let files = vec![file("main.md", "Line 1\r\n!newpage\r\nLine 2")];
    let result = run(files, "main.md").unwrap();
    assert_eq!(result, "Line 1\n<div class=\"page-break\"></div>\nLine 2\n");
}
