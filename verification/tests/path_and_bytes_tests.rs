use pdfbuilder::bytes::{replace_all, split_lines, trimmed};
use pdfbuilder::directive::{Directive, classify_line};
use pdfbuilder::path::{child_path, normalize_path};

fn b(s: &str) -> Vec<u8> {
    s.as_bytes().to_vec()
}

#[test]
fn test_normalize_path_lexical() {
    assert_eq!(normalize_path(&b("a/./b//c/../d.md")), b("a/b/d.md"));
    assert_eq!(normalize_path(&b("chapters/../chapters/ch1.md")), b("chapters/ch1.md"));
    assert_eq!(normalize_path(&b("../../x")), b("../../x"));
    assert_eq!(normalize_path(&b("main.md")), b("main.md"));
}

#[test]
fn test_child_path_decisions() {
    assert_eq!(child_path(&b("main.md"), &b("chap.md")), Ok(b("chap.md")));
    assert_eq!(child_path(&b("chapters/ch1.md"), &b("../notes.md")), Ok(b("notes.md")));
    assert_eq!(child_path(&b("chapters/ch1.md"), &b("sub/x.md")), Ok(b("chapters/sub/x.md")));
    assert_eq!(
        child_path(&b("main.md"), &b("../../secret.txt")),
        Err(b("../../secret.txt")),
    );
    assert!(child_path(&b("main.md"), &b("/etc/passwd")).is_err());
}

#[test]
fn test_classify_line_grammar() {
    match classify_line(&b("  !include(a/b.md)  ")) {
        Directive::Splice(target) => assert_eq!(target, b("a/b.md")),
        _ => panic!("expected a splice directive"),
    }
    // The target may hold spaces; they are kept as written.
    match classify_line(&b("!include( x )")) {
        Directive::Splice(target) => assert_eq!(target, b(" x ")),
        _ => panic!("expected a splice directive"),
    }
    // An empty target, a stray closing paren or trailing text is no directive.
    assert!(matches!(classify_line(&b("!include()")), Directive::Plain));
    assert!(matches!(classify_line(&b("!include(a)b")), Directive::Plain));
    assert!(matches!(classify_line(&b("!include(a))")), Directive::Plain));
    assert!(matches!(classify_line(&b(" !newpage ")), Directive::PageBreak));
    assert!(matches!(classify_line(&b("!toc")), Directive::TocMark));
    assert!(matches!(classify_line(&b("!tocx")), Directive::Plain));
    assert!(matches!(classify_line(&b("plain text")), Directive::Plain));
}

#[test]
fn test_trimmed_and_lines() {
    assert_eq!(trimmed(&b("  \t x y \r\n")), b("x y"));
    assert_eq!(trimmed(&b("   ")), b(""));
    let lines = split_lines(&b("a\r\n\nb\n"));
    assert_eq!(lines, vec![b("a"), b(""), b("b")]);
    assert_eq!(split_lines(&b("")), Vec::<Vec<u8>>::new());
    // A carriage return is stripped only before a newline; a final line
    // without a newline keeps its own, as str::lines does.
    assert_eq!(split_lines(&b("a\r")), vec![b("a\r")]);
    assert_eq!(split_lines(&b("a\r\nb\r")), vec![b("a"), b("b\r")]);
}

#[test]
fn test_classify_line_trims_ascii_whitespace_only() {
    // Directive trimming is ASCII-only by design: a directive padded with a
    // no-break space stays a plain line.
    assert!(matches!(classify_line(&b("\u{a0}!toc")), Directive::Plain));
    assert!(matches!(classify_line(&b(" !toc")), Directive::TocMark));
}

#[test]
fn test_replace_all_occurrences() {
    assert_eq!(replace_all(&b("xAxAx"), &b("A"), &b("BB")), b("xBBxBBx"));
    assert_eq!(replace_all(&b("aaaa"), &b("aa"), &b("a")), b("aa"));
    assert_eq!(replace_all(&b("none"), &b("zz"), &b("y")), b("none"));
}
