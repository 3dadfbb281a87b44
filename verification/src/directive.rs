//! Line-level directive recognition: a trimmed source line either names a file
//! to splice in, asks for a page break, asks for the table of contents, or is
//! plain text. A fence line of three backticks toggles code-block state, and
//! inside a fence no directive is recognized. The trimming around a directive
//! is ASCII-only, by design: a line padded with other whitespace is plain.

use vstd::prelude::*;

use crate::bytes::{trim_spec, trimmed, starts_with, bytes_eq};

verus! {

/// The classification of one source line, outside a fence.
pub enum Directive {
    /// `!` + `include(<path>)`: splice in the named file.
    Splice(Vec<u8>),
    /// `!newpage`: emit a page-break element.
    PageBreak,
    /// `!toc`: emit the table-of-contents placeholder.
    TocMark,
    /// Anything else: the line passes through unchanged.
    Plain,
}

/// The opening of the splice directive, `!` then the word then `(`.
pub open spec fn splice_open() -> Seq<u8> {
    seq![
        '!' as u8,
        'i' as u8,
        'n' as u8,
        'c' as u8,
        'l' as u8,
        'u' as u8,
        'd' as u8,
        'e' as u8,
        '(' as u8,
    ]
}

/// The page-break directive line, after trimming.
pub open spec fn newpage_marker() -> Seq<u8> {
    seq!['!' as u8, 'n' as u8, 'e' as u8, 'w' as u8, 'p' as u8, 'a' as u8, 'g' as u8, 'e' as u8]
}

/// The table-of-contents directive line, after trimming.
pub open spec fn toc_marker() -> Seq<u8> {
    seq!['!' as u8, 't' as u8, 'o' as u8, 'c' as u8]
}

/// Three backticks: a line whose trimmed form starts with these toggles
/// code-block state.
pub open spec fn fence_marker() -> Seq<u8> {
    seq!['`' as u8, '`' as u8, '`' as u8]
}

/// The element emitted for a page break.
pub open spec fn page_break_html() -> Seq<u8> {
    seq![
        '<' as u8,
        'd' as u8,
        'i' as u8,
        'v' as u8,
        ' ' as u8,
        'c' as u8,
        'l' as u8,
        'a' as u8,
        's' as u8,
        's' as u8,
        '=' as u8,
        '"' as u8,
        'p' as u8,
        'a' as u8,
        'g' as u8,
        'e' as u8,
        '-' as u8,
        'b' as u8,
        'r' as u8,
        'e' as u8,
        'a' as u8,
        'k' as u8,
        '"' as u8,
        '>' as u8,
        '<' as u8,
        '/' as u8,
        'd' as u8,
        'i' as u8,
        'v' as u8,
        '>' as u8,
    ]
}

/// The placeholder token that later stages replace with the rendered outline.
pub open spec fn toc_placeholder() -> Seq<u8> {
    seq![
        '<' as u8,
        '!' as u8,
        '-' as u8,
        '-' as u8,
        'T' as u8,
        'O' as u8,
        'C' as u8,
        '_' as u8,
        'P' as u8,
        'L' as u8,
        'A' as u8,
        'C' as u8,
        'E' as u8,
        'H' as u8,
        'O' as u8,
        'L' as u8,
        'D' as u8,
        'E' as u8,
        'R' as u8,
        '-' as u8,
        '-' as u8,
        '>' as u8,
    ]
}

pub fn splice_open_vec() -> (r: Vec<u8>)
    ensures
        r@ == splice_open(),
{
    let mut v: Vec<u8> = Vec::new();
    v.push('!' as u8);
    v.push('i' as u8);
    v.push('n' as u8);
    v.push('c' as u8);
    v.push('l' as u8);
    v.push('u' as u8);
    v.push('d' as u8);
    v.push('e' as u8);
    v.push('(' as u8);
    proof {
        assert(v@ =~= splice_open());
    }
    v
}

pub fn newpage_marker_vec() -> (r: Vec<u8>)
    ensures
        r@ == newpage_marker(),
{
    let mut v: Vec<u8> = Vec::new();
    v.push('!' as u8);
    v.push('n' as u8);
    v.push('e' as u8);
    v.push('w' as u8);
    v.push('p' as u8);
    v.push('a' as u8);
    v.push('g' as u8);
    v.push('e' as u8);
    proof {
        assert(v@ =~= newpage_marker());
    }
    v
}

pub fn toc_marker_vec() -> (r: Vec<u8>)
    ensures
        r@ == toc_marker(),
{
    let mut v: Vec<u8> = Vec::new();
    v.push('!' as u8);
    v.push('t' as u8);
    v.push('o' as u8);
    v.push('c' as u8);
    proof {
        assert(v@ =~= toc_marker());
    }
    v
}

pub fn fence_marker_vec() -> (r: Vec<u8>)
    ensures
        r@ == fence_marker(),
{
    let mut v: Vec<u8> = Vec::new();
    v.push('`' as u8);
    v.push('`' as u8);
    v.push('`' as u8);
    proof {
        assert(v@ =~= fence_marker());
    }
    v
}

pub fn page_break_html_vec() -> (r: Vec<u8>)
    ensures
        r@ == page_break_html(),
{
    let mut v: Vec<u8> = Vec::new();
    v.push('<' as u8);
    v.push('d' as u8);
    v.push('i' as u8);
    v.push('v' as u8);
    v.push(' ' as u8);
    v.push('c' as u8);
    v.push('l' as u8);
    v.push('a' as u8);
    v.push('s' as u8);
    v.push('s' as u8);
    v.push('=' as u8);
    v.push('"' as u8);
    v.push('p' as u8);
    v.push('a' as u8);
    v.push('g' as u8);
    v.push('e' as u8);
    v.push('-' as u8);
    v.push('b' as u8);
    v.push('r' as u8);
    v.push('e' as u8);
    v.push('a' as u8);
    v.push('k' as u8);
    v.push('"' as u8);
    v.push('>' as u8);
    v.push('<' as u8);
    v.push('/' as u8);
    v.push('d' as u8);
    v.push('i' as u8);
    v.push('v' as u8);
    v.push('>' as u8);
    proof {
        assert(v@ =~= page_break_html());
    }
    v
}

pub fn toc_placeholder_vec() -> (r: Vec<u8>)
    ensures
        r@ == toc_placeholder(),
{
    let mut v: Vec<u8> = Vec::new();
    v.push('<' as u8);
    v.push('!' as u8);
    v.push('-' as u8);
    v.push('-' as u8);
    v.push('T' as u8);
    v.push('O' as u8);
    v.push('C' as u8);
    v.push('_' as u8);
    v.push('P' as u8);
    v.push('L' as u8);
    v.push('A' as u8);
    v.push('C' as u8);
    v.push('E' as u8);
    v.push('H' as u8);
    v.push('O' as u8);
    v.push('L' as u8);
    v.push('D' as u8);
    v.push('E' as u8);
    v.push('R' as u8);
    v.push('-' as u8);
    v.push('-' as u8);
    v.push('>' as u8);
    proof {
        assert(v@ =~= toc_placeholder());
    }
    v
}

/// The splice target of `line`, when `line` is a whole-line splice directive:
/// after trimming, the opening marker, then at least one byte other than `)`,
/// then a final `)`.
pub open spec fn splice_target(line: Seq<u8>) -> Option<Seq<u8>> {
    let t = trim_spec(line);
    let n = splice_open().len() as int;
    if t.len() >= n + 2 && splice_open().is_prefix_of(t) && t.last() == ')' as u8 && (forall|
        i: int,
    |
        n <= i < t.len() - 1 ==> t[i] != ')' as u8) {
        Some(t.subrange(n, t.len() - 1))
    } else {
        None
    }
}

/// True when `line` toggles code-block state.
pub open spec fn is_fence_line(line: Seq<u8>) -> bool {
    fence_marker().is_prefix_of(trim_spec(line))
}

/// True when `line` toggles code-block state.
pub fn fence_line(line: &Vec<u8>) -> (r: bool)
    ensures
        r == is_fence_line(line@),
{
    let t = trimmed(line);
    let fence = fence_marker_vec();
    starts_with(&t, &fence)
}

/// Classifies one line found outside a fence.
pub fn classify_line(line: &Vec<u8>) -> (d: Directive)
    ensures
        match d {
            Directive::Splice(target) => splice_target(line@) == Some(target@),
            Directive::PageBreak => splice_target(line@) is None && trim_spec(line@)
                == newpage_marker(),
            Directive::TocMark => splice_target(line@) is None && trim_spec(line@)
                == toc_marker(),
            Directive::Plain => splice_target(line@) is None && trim_spec(line@)
                != newpage_marker() && trim_spec(line@) != toc_marker(),
        },
{
    let t = trimmed(line);
    let open = splice_open_vec();
    if t.len() >= open.len() + 2 && starts_with(&t, &open) && t[t.len() - 1] == ')' as u8 {
        let mut i: usize = open.len();
        let mut seen_close = false;
        while i < t.len() - 1
            invariant
                open@.len() <= i <= t@.len() - 1,
                t@.len() >= open@.len() + 2,
                seen_close <==> exists|j: int|
                    open@.len() <= j < i && t@[j] == ')' as u8,
            decreases t@.len() - i,
    {
            if t[i] == ')' as u8 {
                seen_close = true;
            }
            i = i + 1;
        }
        if !seen_close {
            let target = vstd::slice::slice_to_vec(&t.as_slice()[open.len()..t.len() - 1]);
            proof {
                assert(target@ =~= trim_spec(line@).subrange(
                    splice_open().len() as int,
                    trim_spec(line@).len() - 1,
                ));
            }
            return Directive::Splice(target);
        }
    }
    let newpage = newpage_marker_vec();
    if bytes_eq(&t, &newpage) {
        return Directive::PageBreak;
    }
    let toc = toc_marker_vec();
    if bytes_eq(&t, &toc) {
        return Directive::TocMark;
    }
    Directive::Plain
}

} // verus!
