use pdfbuilder::outline::{TocEntry, build_toc_hierarchy};
use pdfbuilder::toc_html::{generate_toc_entry_html, generate_toc_html};

fn b(s: &str) -> Vec<u8> {
    s.as_bytes().to_vec()
}

fn s(v: &[u8]) -> String {
    String::from_utf8(v.to_vec()).unwrap()
}

fn entry(level: u8, title: &str) -> TocEntry {
    TocEntry { level, title: b(title), children: Vec::new() }
}

#[test]
fn test_build_toc_hierarchy() {
    let entries = vec![
        entry(1, "Main"),
        entry(2, "Chapter 1"),
        entry(3, "Section 1"),
        entry(2, "Chapter 2"),
    ];

    let hierarchy = build_toc_hierarchy(entries);
    assert_eq!(hierarchy.len(), 1);
    assert_eq!(hierarchy[0].title, b("Main"));
    assert_eq!(hierarchy[0].children.len(), 2);
    assert_eq!(hierarchy[0].children[0].title, b("Chapter 1"));
    assert_eq!(hierarchy[0].children[0].children.len(), 1);
    assert_eq!(hierarchy[0].children[0].children[0].title, b("Section 1"));
    assert_eq!(hierarchy[0].children[1].title, b("Chapter 2"));
}

#[test]
fn test_build_toc_hierarchy_no_root() {
    // A level-2 heading after a lone level-3 heading pops it to the top, and
    // a deeper heading that follows nests under the level-2 node.
    let hierarchy = build_toc_hierarchy(vec![entry(3, "A"), entry(2, "B"), entry(3, "C")]);
    assert_eq!(hierarchy.len(), 2);
    assert_eq!(hierarchy[0].title, b("A"));
    assert_eq!(hierarchy[0].children.len(), 0);
    assert_eq!(hierarchy[1].title, b("B"));
    assert_eq!(hierarchy[1].children.len(), 1);
    assert_eq!(hierarchy[1].children[0].title, b("C"));

    // Levels [3, 3, 2] hold no nesting at all: nothing follows a node with a
    // strictly greater level, so all three stay top-level siblings.
    let flat = build_toc_hierarchy(vec![entry(3, "A"), entry(3, "B"), entry(2, "C")]);
    assert_eq!(flat.len(), 3);
    assert!(flat.iter().all(|n| n.children.is_empty()));
}

#[test]
fn test_generate_toc_entry_html() {
    let e = TocEntry {
        level: 1,
        title: b("Test Chapter"),
        children: vec![TocEntry { level: 2, title: b("Sub Section"), children: Vec::new() }],
    };

    let mut html: Vec<u8> = Vec::new();
    generate_toc_entry_html(&mut html, &e);
    let html = s(&html);

    assert!(html.contains("Test Chapter"));
    assert!(html.contains("Sub Section"));
    assert!(html.contains("toc-entry-h1"));
    assert!(html.contains("toc-entry-h2"));
    assert!(!html.contains("5"));
    assert!(!html.contains("6"));
    assert!(html.contains("toc-entry-dots"));
}

#[test]
fn test_generate_toc_entry_html_wide_levels() {
    let mut html: Vec<u8> = Vec::new();
    generate_toc_entry_html(&mut html, &entry(12, "Deep"));
    assert!(s(&html).contains("toc-entry-h12"));

    let mut html = Vec::new();
    generate_toc_entry_html(&mut html, &entry(255, "Deeper"));
    assert!(s(&html).contains("toc-entry-h255"));
}

#[test]
fn test_generate_toc_html_empty() {
    let entries: Vec<TocEntry> = vec![];
    let result = generate_toc_html(&entries);
    assert_eq!(result, b(""));
}

#[test]
fn test_generate_toc_html_with_entries() {
    let entries = vec![entry(1, "Chapter 1"), entry(2, "Section 1.1")];

    let result = s(&generate_toc_html(&entries));
    assert!(result.contains("Table des mati\u{e8}res"));
    assert!(result.contains("Chapter 1"));
    assert!(result.contains("Section 1.1"));
    assert!(result.contains("toc-content"));
    assert!(result.contains("toc-title"));
}
