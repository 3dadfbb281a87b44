//! Serialization of the outline forest into nested markup: each node becomes
//! one entry with a level-derived style class and its title, followed by its
//! children; an empty forest yields empty output with no wrapper at all.

use vstd::prelude::*;

use crate::bytes::{utf8_of, str_bytes, dec_digits, push_u8_decimal, push_all};
use crate::outline::{TocEntry, Node, node_size, forest_size, entry_view, forest_view, lemma_forest_view};

verus! {

/// The markup of one outline entry: the opening of its element up to the
/// level digit, the digits, the rest up to the title, the title, the closing,
/// then its children in order.
pub open spec fn toc_entry_html_of(n: Node) -> Seq<u8>
    decreases node_size(n), 0nat,
{
    utf8_of("<div class=\"toc-entry toc-entry-h"@) + dec_digits(n.level as nat) + utf8_of(
        "\">\n    <span class=\"toc-entry-title\">"@,
    ) + n.title + utf8_of("</span>\n    <span class=\"toc-entry-dots\"></span>\n</div>"@)
        + toc_entries_html_of(n.children)
}

/// The markup of a forest of entries, in order.
pub open spec fn toc_entries_html_of(f: Seq<Node>) -> Seq<u8>
    decreases forest_size(f), f.len(),
{
    if f.len() == 0 {
        Seq::empty()
    } else {
        toc_entry_html_of(f[0]) + toc_entries_html_of(f.drop_first())
    }
}

/// The whole table-of-contents block: nothing at all for an empty forest,
/// else the titled wrapper around the entries.
pub open spec fn toc_html_of(f: Seq<Node>) -> Seq<u8> {
    if f.len() == 0 {
        Seq::empty()
    } else {
        utf8_of(
            "<div class=\"toc\">\n<div class=\"toc-title\">Table des mati\u{e8}res</div>\n<div class=\"toc-content\">"@,
        ) + toc_entries_html_of(f) + utf8_of("</div>\n</div>"@)
    }
}

proof fn lemma_entries_html_concat(f1: Seq<Node>, f2: Seq<Node>)
    ensures
        toc_entries_html_of(f1 + f2) == toc_entries_html_of(f1) + toc_entries_html_of(f2),
    decreases f1.len(),
{
    if f1.len() == 0 {
        assert(f1 + f2 =~= f2);
        assert(toc_entries_html_of(f1) =~= Seq::<u8>::empty());
        assert(toc_entries_html_of(f1) + toc_entries_html_of(f2) =~= toc_entries_html_of(f2));
    } else {
        let f = f1 + f2;
        assert(f[0] == f1[0]);
        assert(f.drop_first() =~= f1.drop_first() + f2);
        lemma_entries_html_concat(f1.drop_first(), f2);
        assert(toc_entries_html_of(f) =~= toc_entries_html_of(f1) + toc_entries_html_of(f2));
    }
}

proof fn lemma_forest_size_element(f: Seq<Node>, i: int)
    requires
        0 <= i < f.len(),
    ensures
        node_size(f[i]) <= forest_size(f),
    decreases f.len(),
{
    if i > 0 {
        lemma_forest_size_element(f.drop_first(), i - 1);
    }
}

/// Appends the markup of one entry and, recursively, of its children.
pub fn generate_toc_entry_html(html: &mut Vec<u8>, entry: &TocEntry)
    ensures
        final(html)@ == old(html)@ + toc_entry_html_of(entry_view(*entry)),
    decreases node_size(entry_view(*entry)),
{
    let ghost n = entry_view(*entry);
    let ghost pre = old(html)@;
    let piece_a = str_bytes("<div class=\"toc-entry toc-entry-h");
    push_all(html, &piece_a);
    push_u8_decimal(html, entry.level);
    let piece_b = str_bytes("\">\n    <span class=\"toc-entry-title\">");
    push_all(html, &piece_b);
    push_all(html, &entry.title);
    let piece_c = str_bytes("</span>\n    <span class=\"toc-entry-dots\"></span>\n</div>");
    push_all(html, &piece_c);
    let ghost head = pre + utf8_of("<div class=\"toc-entry toc-entry-h"@) + dec_digits(
        entry.level as nat,
    ) + utf8_of("\">\n    <span class=\"toc-entry-title\">"@) + entry.title@ + utf8_of(
        "</span>\n    <span class=\"toc-entry-dots\"></span>\n</div>"@,
    );
    proof {
        assert(html@ =~= head);
        lemma_forest_view(entry.children);
    }
    let ghost kids = forest_view(entry.children);
    let mut i: usize = 0;
    while i < entry.children.len()
        invariant
            0 <= i <= entry.children@.len(),
            kids == forest_view(entry.children),
            kids.len() == entry.children@.len(),
            forall|j: int| 0 <= j < kids.len() ==> kids[j] == entry_view(entry.children@[j]),
            n == entry_view(*entry),
            n.children == kids,
            head == pre + utf8_of("<div class=\"toc-entry toc-entry-h"@) + dec_digits(
                entry.level as nat,
            ) + utf8_of("\">\n    <span class=\"toc-entry-title\">"@) + entry.title@ + utf8_of(
                "</span>\n    <span class=\"toc-entry-dots\"></span>\n</div>"@,
            ),
            html@ == head + toc_entries_html_of(kids.take(i as int)),
        decreases entry.children@.len() - i,
    {
        proof {
            lemma_forest_size_element(kids, i as int);
        }
        let ghost before = html@;
        generate_toc_entry_html(html, &entry.children[i]);
        proof {
            assert(kids.take(i + 1) =~= kids.take(i as int).push(kids[i as int]));
            lemma_entries_html_concat(kids.take(i as int), seq![kids[i as int]]);
            assert(toc_entries_html_of(seq![kids[i as int]]) =~= toc_entry_html_of(
                kids[i as int],
            )) by {
                assert(seq![kids[i as int]][0] == kids[i as int]);
                assert(seq![kids[i as int]].drop_first() =~= Seq::<Node>::empty());
                assert(toc_entries_html_of(Seq::<Node>::empty()) =~= Seq::<u8>::empty());
                assert(toc_entry_html_of(kids[i as int]) + Seq::<u8>::empty() =~= toc_entry_html_of(
                    kids[i as int],
                ));
            }
            assert(kids.take(i as int) + seq![kids[i as int]] =~= kids.take(i + 1));
            assert(html@ =~= head + toc_entries_html_of(kids.take(i + 1)));
        }
        i = i + 1;
    }
    proof {
        assert(kids.take(kids.len() as int) =~= kids);
        assert(html@ =~= pre + toc_entry_html_of(n));
    }
}

/// Serializes the outline forest. An empty forest gives empty output, not an
/// empty wrapper; a non-empty one gives the titled block with one entry per
/// node in document order.
pub fn generate_toc_html(entries: &Vec<TocEntry>) -> (r: Vec<u8>)
    ensures
        r@ == toc_html_of(forest_view(*entries)),
        entries@.len() == 0 ==> r@ == Seq::<u8>::empty(),
{
    proof {
        lemma_forest_view(*entries);
    }
    let ghost f = forest_view(*entries);
    if entries.len() == 0 {
        let r: Vec<u8> = Vec::new();
        proof {
            assert(r@ =~= toc_html_of(f));
        }
        return r;
    }
    let mut out = str_bytes(
        "<div class=\"toc\">\n<div class=\"toc-title\">Table des mati\u{e8}res</div>\n<div class=\"toc-content\">",
    );
    let ghost open_piece = out@;
    let mut i: usize = 0;
    while i < entries.len()
        invariant
            0 <= i <= entries@.len(),
            f == forest_view(*entries),
            f.len() == entries@.len(),
            forall|j: int| 0 <= j < f.len() ==> f[j] == entry_view(entries@[j]),
            open_piece == utf8_of(
                "<div class=\"toc\">\n<div class=\"toc-title\">Table des mati\u{e8}res</div>\n<div class=\"toc-content\">"@,
            ),
            out@ == open_piece + toc_entries_html_of(f.take(i as int)),
        decreases entries@.len() - i,
    {
        generate_toc_entry_html(&mut out, &entries[i]);
        proof {
            lemma_entries_html_concat(f.take(i as int), seq![f[i as int]]);
            assert(toc_entries_html_of(seq![f[i as int]]) =~= toc_entry_html_of(f[i as int])) by {
                assert(seq![f[i as int]][0] == f[i as int]);
                assert(seq![f[i as int]].drop_first() =~= Seq::<Node>::empty());
                assert(toc_entries_html_of(Seq::<Node>::empty()) =~= Seq::<u8>::empty());
                assert(toc_entry_html_of(f[i as int]) + Seq::<u8>::empty() =~= toc_entry_html_of(
                    f[i as int],
                ));
            }
            assert(f.take(i as int) + seq![f[i as int]] =~= f.take(i + 1));
            assert(out@ =~= open_piece + toc_entries_html_of(f.take(i + 1)));
        }
        i = i + 1;
    }
    let close_piece = str_bytes("</div>\n</div>");
    push_all(&mut out, &close_piece);
    proof {
        assert(f.take(f.len() as int) =~= f);
        assert(out@ =~= toc_html_of(f));
    }
    out
}

} // verus!
