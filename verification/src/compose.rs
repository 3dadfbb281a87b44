//! The document composer: markdown rendering, code-block highlighting, the
//! table-of-contents substitution, stylesheet assembly, and the final
//! document skeleton. The renderer, the HTML scanner and the highlighter are
//! outside collaborators; each is reached through one trusted function whose
//! result is named, and everything around those calls is verified.

use vstd::prelude::*;

use crate::bytes::{
    utf8_of, str_bytes, push_all, trim_spec, trimmed, starts_with, find_sub, contains_sub,
    replace_all, replace_all_spec, views,
};
use crate::config::Config;
use crate::directive::{toc_placeholder, toc_placeholder_vec};
use crate::error::{AppError, ErrView};
use crate::outline::{TocEntry, outline_of};
use crate::toc_html::{toc_html_of, generate_toc_html};

verus! {

/// What the markdown renderer returns for a source text.
pub uninterp spec fn rendered_html_of(md: Seq<u8>) -> Seq<u8>;

/// Relies on pulldown_cmark's Parser::new_ext and html::push_html, with
/// tables, strikethrough, footnotes and task lists enabled: the rendered
/// fragment depends on the source text alone.
#[verifier::external_body]
fn render_markdown(md: &Vec<u8>) -> (r: Vec<u8>)
    ensures
        r@ == rendered_html_of(md@),
{
    let text = String::from_utf8_lossy(md.as_slice()).into_owned();
    let mut options = pulldown_cmark::Options::empty();
    options.insert(pulldown_cmark::Options::ENABLE_STRIKETHROUGH | pulldown_cmark::Options::ENABLE_TABLES | pulldown_cmark::Options::ENABLE_FOOTNOTES | pulldown_cmark::Options::ENABLE_TASKLISTS);
    let parser = pulldown_cmark::Parser::new_ext(&text, options);
    let mut out = String::new();
    pulldown_cmark::html::push_html(&mut out, parser);
    out.into_bytes()
}

/// The heading elements of a rendered fragment, in document order, each as
/// its tag name and its concatenated text content.
pub uninterp spec fn heading_elems_of(html: Seq<u8>) -> Seq<(Seq<u8>, Seq<u8>)>;

/// Relies on scraper's Html::parse_document, the selector over the six
/// heading tags, and ElementRef::text, which flattens nested inline markup.
#[verifier::external_body]
fn heading_elements(html: &Vec<u8>) -> (r: Vec<(Vec<u8>, Vec<u8>)>)
    ensures
        r@.map_values(|p: (Vec<u8>, Vec<u8>)| (p.0@, p.1@)) == heading_elems_of(html@),
{
    let text = String::from_utf8_lossy(html.as_slice()).into_owned();
    let doc = scraper::Html::parse_document(&text);
    let sel = scraper::Selector::parse("h1, h2, h3, h4, h5, h6").unwrap();
    let mut out: Vec<(Vec<u8>, Vec<u8>)> = Vec::new();
    for el in doc.select(&sel) {
        let tag = el.value().name().to_string().into_bytes();
        let content = el.text().collect::<String>().into_bytes();
        out.push((tag, content));
    }
    out
}

/// The `pre` elements of a rendered fragment, in document order: the outer
/// markup, whether a `code` descendant with a language-naming class exists,
/// that descendant's classes, and its text content.
pub uninterp spec fn code_blocks_of(html: Seq<u8>) -> Seq<(Seq<u8>, bool, Seq<Seq<u8>>, Seq<u8>)>;

/// Relies on scraper's Html::parse_fragment, the selectors `pre` and
/// `code[class*='language-']`, ElementRef::html, Element::classes and
/// ElementRef::text.
#[verifier::external_body]
fn pre_code_blocks(html: &Vec<u8>) -> (r: Vec<(Vec<u8>, bool, Vec<Vec<u8>>, Vec<u8>)>)
    ensures
        r@.map_values(
            |p: (Vec<u8>, bool, Vec<Vec<u8>>, Vec<u8>)|
                (p.0@, p.1, p.2@.map_values(|c: Vec<u8>| c@), p.3@),
        ) == code_blocks_of(html@),
{
    let doc = scraper::Html::parse_fragment(&String::from_utf8_lossy(html.as_slice()));
    let pre_sel = scraper::Selector::parse("pre").unwrap();
    let code_sel = scraper::Selector::parse("code[class*='language-']").unwrap();
    let mut out = Vec::new();
    for pre in doc.select(&pre_sel) {
        let code = pre.select(&code_sel).next();
        let cls: Vec<Vec<u8>> = code.iter().flat_map(|c| c.value().classes()).map(|x| x.as_bytes().to_vec()).collect();
        let txt = code.map_or(String::new(), |c| c.text().collect()).into_bytes();
        out.push((pre.html().into_bytes(), code.is_some(), cls, txt));
    }
    out
}

/// Whether the built-in highlighter theme set has a theme of this name.
pub uninterp spec fn theme_in_defaults(name: Seq<u8>) -> bool;

/// Relies on syntect's ThemeSet::load_defaults, compiled-in data: membership
/// depends on the name alone.
#[verifier::external_body]
fn theme_known(name: &Vec<u8>) -> (r: bool)
    ensures
        r == theme_in_defaults(name@),
{
    let n = String::from_utf8_lossy(name.as_slice()).into_owned();
    syntect::highlighting::ThemeSet::load_defaults().themes.contains_key(&n)
}

/// What the highlighter's stylesheet generation returns for a built-in
/// theme: the stylesheet, or nothing when the generation itself declines.
pub uninterp spec fn theme_css_opt_of(name: Seq<u8>) -> Option<Seq<u8>>;

/// The stylesheet the highlighter generates for a built-in theme, where the
/// generation succeeds.
pub open spec fn theme_css_of(name: Seq<u8>) -> Seq<u8> {
    theme_css_opt_of(name).unwrap()
}

/// Relies on syntect's css_for_theme_with_class_style with spaced classes, on
/// the named built-in theme: whether it succeeds and what stylesheet it
/// returns depend on the theme name alone. A failure carries the underlying
/// message.
#[verifier::external_body]
fn syntax_theme_css(name: &Vec<u8>) -> (r: Result<Vec<u8>, Vec<u8>>)
    requires
        theme_in_defaults(name@),
    ensures
        r is Ok <==> theme_css_opt_of(name@) is Some,
        r is Ok ==> (r->Ok_0)@ == theme_css_opt_of(name@).unwrap(),
{
    let n = String::from_utf8_lossy(name.as_slice()).into_owned();
    let ts = syntect::highlighting::ThemeSet::load_defaults();
    let th = match ts.themes.get(&n) {
        Some(t) => t,
        None => return Err(Vec::new()),
    };
    match syntect::html::css_for_theme_with_class_style(th, syntect::html::ClassStyle::Spaced) {
        Ok(c) => Ok(c.into_bytes()),
        Err(e) => Err(e.to_string().into_bytes()),
    }
}

/// What the highlighter returns for one code block: the markup, or nothing
/// when highlighting itself declines.
pub uninterp spec fn highlighted_opt_of(code: Seq<u8>, lang: Seq<u8>, theme: Seq<u8>) -> Option<
    Seq<u8>,
>;

/// The markup the highlighter produces for one code block, where
/// highlighting succeeds.
pub open spec fn highlighted_of(code: Seq<u8>, lang: Seq<u8>, theme: Seq<u8>) -> Seq<u8> {
    highlighted_opt_of(code, lang, theme).unwrap()
}

/// Relies on syntect's SyntaxSet::load_defaults_newlines,
/// find_syntax_by_token (falling back to the plain-text syntax when the token
/// is unknown) and highlighted_html_for_string, on the named built-in theme:
/// whether it succeeds and what markup it returns depend on the code, the
/// token and the theme name alone. A failure carries the underlying message.
#[verifier::external_body]
fn highlight_code(code: &Vec<u8>, lang: &Vec<u8>, theme: &Vec<u8>) -> (r: Result<Vec<u8>, Vec<u8>>)
    requires
        theme_in_defaults(theme@),
    ensures
        r is Ok <==> highlighted_opt_of(code@, lang@, theme@) is Some,
        r is Ok ==> (r->Ok_0)@ == highlighted_opt_of(code@, lang@, theme@).unwrap(),
{
    let c = String::from_utf8_lossy(code.as_slice()).into_owned();
    let l = String::from_utf8_lossy(lang.as_slice()).into_owned();
    let n = String::from_utf8_lossy(theme.as_slice()).into_owned();
    let ss = syntect::parsing::SyntaxSet::load_defaults_newlines();
    let ts = syntect::highlighting::ThemeSet::load_defaults();
    let th = match ts.themes.get(&n) {
        Some(t) => t,
        None => return Err(Vec::new()),
    };
    let syntax = ss.find_syntax_by_token(&l).unwrap_or_else(|| ss.find_syntax_plain_text());
    match syntect::html::highlighted_html_for_string(&c, &ss, syntax, th) {
        Ok(h) => Ok(h.into_bytes()),
        Err(e) => Err(e.to_string().into_bytes()),
    }
}

/// The heading level named by a tag: 1 through 6 for `h1` through `h6`, and 0
/// for anything else.
pub open spec fn tag_level(tag: Seq<u8>) -> u8 {
    if tag.len() == 2 && tag[0] == 'h' as u8 && '1' as u8 <= tag[1] && tag[1] <= '6' as u8 {
        (tag[1] - '0' as u8) as u8
    } else {
        0u8
    }
}

/// The flat heading sequence taken from scanned heading elements: the tag's
/// level and the trimmed title, headings with unknown tags or empty trimmed
/// titles dropped.
pub open spec fn flat_headings_of(es: Seq<(Seq<u8>, Seq<u8>)>) -> Seq<(u8, Seq<u8>)>
    decreases es.len(),
{
    if es.len() == 0 {
        Seq::empty()
    } else {
        let lv = tag_level(es[0].0);
        let tt = trim_spec(es[0].1);
        (if lv >= 1 && tt.len() > 0 {
            seq![(lv, tt)]
        } else {
            Seq::empty()
        }) + flat_headings_of(es.drop_first())
    }
}

/// Scans the rendered body for headings and serializes their outline: the
/// markup of `outline_of` the flat heading sequence.
pub fn generate_toc_from_html(html: &Vec<u8>) -> (r: Vec<u8>)
    ensures
        r@ == toc_html_of(outline_of(flat_headings_of(heading_elems_of(html@)))),
{
    let elems = heading_elements(html);
    let ghost ev = elems@.map_values(|p: (Vec<u8>, Vec<u8>)| (p.0@, p.1@));
    let mut entries: Vec<TocEntry> = Vec::new();
    let mut i: usize = 0;
    proof {
        assert(ev.skip(0) =~= ev);
        assert(entries@.map_values(|e: TocEntry| (e.level, e.title@)) + flat_headings_of(ev)
            =~= flat_headings_of(ev));
    }
    while i < elems.len()
        invariant
            0 <= i <= elems@.len(),
            ev == elems@.map_values(|p: (Vec<u8>, Vec<u8>)| (p.0@, p.1@)),
            flat_headings_of(ev) == entries@.map_values(|e: TocEntry| (e.level, e.title@))
                + flat_headings_of(ev.skip(i as int)),
            forall|j: int| 0 <= j < entries@.len() ==> (#[trigger] entries@[j]).children@.len() == 0,
        decreases elems@.len() - i,
    {
        let ghost pre = entries@.map_values(|e: TocEntry| (e.level, e.title@));
        let ghost suffix = ev.skip(i as int);
        proof {
            assert(suffix[0] == ev[i as int]);
            assert(suffix.drop_first() =~= ev.skip(i + 1));
        }
        let tag = &elems[i].0;
        let mut level: u8 = 0;
        if tag.len() == 2 && tag[0] == 'h' as u8 && '1' as u8 <= tag[1] && tag[1] <= '6' as u8 {
            level = tag[1] - '0' as u8;
        }
        let title = trimmed(&elems[i].1);
        proof {
            assert(ev[i as int] == (elems@[i as int].0@, elems@[i as int].1@));
            assert(level == tag_level(suffix[0].0));
            assert(title@ == trim_spec(suffix[0].1));
        }
        if level >= 1 && title.len() > 0 {
            entries.push(TocEntry { level, title, children: Vec::new() });
            proof {
                assert(entries@.map_values(|e: TocEntry| (e.level, e.title@)) =~= pre.push(
                    (level, trim_spec(suffix[0].1)),
                ));
                assert(pre.push((level, trim_spec(suffix[0].1))) + flat_headings_of(
                    ev.skip(i + 1),
                ) =~= pre + (seq![(level, trim_spec(suffix[0].1))] + flat_headings_of(
                    ev.skip(i + 1),
                )));
            }
        } else {
            proof {
                assert(Seq::<(u8, Seq<u8>)>::empty() + flat_headings_of(ev.skip(i + 1))
                    =~= flat_headings_of(ev.skip(i + 1)));
            }
        }
        i = i + 1;
    }
    proof {
        assert(ev.skip(ev.len() as int) =~= Seq::<(Seq<u8>, Seq<u8>)>::empty());
        assert(flat_headings_of(ev.skip(ev.len() as int)) =~= Seq::<(u8, Seq<u8>)>::empty());
        assert(entries@.map_values(|e: TocEntry| (e.level, e.title@)) + Seq::<(
            u8,
            Seq<u8>,
        )>::empty() =~= entries@.map_values(|e: TocEntry| (e.level, e.title@)));
    }
    let forest = crate::outline::build_toc_hierarchy(entries);
    generate_toc_html(&forest)
}


/// The built-in stylesheet used when no theme file is given.
pub const DEFAULT_THEME_CSS: &'static str = "/* Simple Dark Theme */\nbody { background-color: #1a1a1a; color: #f2f2f2; font-family: 'Georgia', 'Times New Roman', serif; line-height: 1.6; padding: 2em; max-width: 800px; margin: 0 auto; }\nh1, h2, h3 { color: #ffa500; font-family: 'Georgia', 'Times New Roman', serif; }\nh1 { font-size: 2.5em; text-align: center; margin-bottom: 1.5em; border-bottom: 3px solid #ffa500; padding-bottom: 0.5em; }\nh2 { font-size: 1.8em; margin-top: 2em; margin-bottom: 1em; }\nh3 { font-size: 1.4em; margin-top: 1.5em; margin-bottom: 0.8em; }\ncode { background-color: #2a2a2a; padding: 2px 4px; border-radius: 4px; font-family: 'Monaco', 'Consolas', monospace; }\npre { background-color: #2a2a2a; padding: 1em; border-radius: 8px; overflow-x: auto; }\np { text-align: justify; margin-bottom: 1em; }\n\n/* Styled table of contents */\n.toc { \n    background: linear-gradient(135deg, #2a2a2a 0%, #1a1a1a 100%); \n    border: 2px solid #ffa500; \n    border-radius: 12px; \n    padding: 2.5em; \n    margin: 3em 0; \n    font-family: 'Georgia', 'Times New Roman', serif;\n    box-shadow: 0 8px 32px rgba(255, 165, 0, 0.1);\n}\n\n.toc-title { \n    color: #ffa500; \n    font-size: 2em; \n    font-weight: bold; \n    text-align: center; \n    margin: 0 0 1.5em 0; \n    text-transform: uppercase; \n    letter-spacing: 2px;\n    border-bottom: 3px solid #ffa500;\n    padding-bottom: 0.5em;\n}\n\n.toc-content {\n    font-size: 1.1em;\n    line-height: 1.8;\n}\n\n.toc-entry {\n    display: flex;\n    justify-content: space-between;\n    align-items: baseline;\n    margin: 0.8em 0;\n    padding: 0.4em 0;\n    border-bottom: 1px dotted #555;\n}\n\n.toc-entry:last-child {\n    border-bottom: none;\n}\n\n.toc-entry-h1 {\n    font-weight: bold;\n    font-size: 1.2em;\n    color: #ffa500;\n    margin: 1.2em 0;\n    padding: 0.6em 0;\n    border-bottom: 2px solid #ffa500;\n}\n\n.toc-entry-h2 {\n    font-weight: 600;\n    color: #e0e0e0;\n    margin-left: 1em;\n}\n\n.toc-entry-h3 {\n    color: #c0c0c0;\n    margin-left: 2em;\n    font-style: italic;\n}\n\n.toc-entry-h4 {\n    color: #a0a0a0;\n    margin-left: 3em;\n    font-size: 0.95em;\n}\n\n.toc-entry-title {\n    flex: 1;\n    margin-right: 1em;\n}\n\n.toc-entry-dots {\n    flex-grow: 1;\n    border-bottom: 2px dotted #666;\n    margin-left: 1em;\n}\n\n.page-break { \n    page-break-before: always !important; \n    height: 0; \n    overflow: hidden; \n    line-height: 0; \n}\n\n@media print {\n    body { \n        color: black; \n        background: white;\n        padding: 0; \n        margin: 0; \n        -webkit-print-color-adjust: exact; \n        print-color-adjust: exact; \n        max-width: none;\n    }\n    \n    .page-break { \n        page-break-before: always !important; \n        height: 0; \n        overflow: hidden; \n        line-height: 0; \n    }\n    \n    h1 { \n        page-break-before: always; \n        color: #333;\n        border-bottom: 3px solid #333;\n    }\n    \n    h2, h3 { color: #333; }\n    \n    p, li { \n        orphans: 3; \n        widows: 3; \n    }\n    \n    pre, code { \n        background-color: #f0f0f0; \n        border: 1px solid #ddd; \n        page-break-inside: avoid; \n        color: black;\n    }\n    \n    .toc { \n        background: white; \n        border: 2px solid #333; \n        box-shadow: none;\n        page-break-inside: avoid;\n    }\n    \n    .toc-title {\n        color: #333;\n        border-bottom: 3px solid #333;\n    }\n    \n    .toc-entry {\n        border-bottom: 1px dotted #333;\n    }\n    \n    .toc-entry-h1 {\n        color: #333;\n        border-bottom: 2px solid #333;\n    }\n    \n    .toc-entry-h2 {\n        color: #333;\n    }\n    \n    .toc-entry-h3 {\n        color: #666;\n    }\n    \n    .toc-entry-h4 {\n        color: #999;\n    }\n}";

/// The language-class prefix on highlighted code blocks.
pub open spec fn lang_prefix() -> Seq<u8> {
    seq![
        'l' as u8,
        'a' as u8,
        'n' as u8,
        'g' as u8,
        'u' as u8,
        'a' as u8,
        'g' as u8,
        'e' as u8,
        '-' as u8,
    ]
}

/// The fallback language token for a block whose class names the prefix but
/// no usable token.
pub open spec fn text_token() -> Seq<u8> {
    seq!['t' as u8, 'e' as u8, 'x' as u8, 't' as u8]
}

fn lang_prefix_vec() -> (r: Vec<u8>)
    ensures
        r@ == lang_prefix(),
{
    let mut v: Vec<u8> = Vec::new();
    v.push('l' as u8);
    v.push('a' as u8);
    v.push('n' as u8);
    v.push('g' as u8);
    v.push('u' as u8);
    v.push('a' as u8);
    v.push('g' as u8);
    v.push('e' as u8);
    v.push('-' as u8);
    proof {
        assert(v@ =~= lang_prefix());
    }
    v
}

fn text_token_vec() -> (r: Vec<u8>)
    ensures
        r@ == text_token(),
{
    let mut v: Vec<u8> = Vec::new();
    v.push('t' as u8);
    v.push('e' as u8);
    v.push('x' as u8);
    v.push('t' as u8);
    proof {
        assert(v@ =~= text_token());
    }
    v
}

/// True when some class of the block mentions the language prefix anywhere.
pub open spec fn any_lang_class(cs: Seq<Seq<u8>>) -> bool {
    exists|j: int| 0 <= j < cs.len() && contains_sub(#[trigger] cs[j], lang_prefix())
}

/// The token of the first class that starts with the language prefix, if any.
pub open spec fn first_lang_class(cs: Seq<Seq<u8>>) -> Option<Seq<u8>>
    decreases cs.len(),
{
    if cs.len() == 0 {
        None
    } else if lang_prefix().is_prefix_of(cs[0]) {
        Some(cs[0].skip(lang_prefix().len() as int))
    } else {
        first_lang_class(cs.drop_first())
    }
}

/// The language token handed to the highlighter: the first class with the
/// prefix, stripped of it, or the fallback token.
pub open spec fn lang_token_of(cs: Seq<Seq<u8>>) -> Seq<u8> {
    match first_lang_class(cs) {
        Some(l) => l,
        None => text_token(),
    }
}

/// The language of one scanned block, when it is highlighted at all: it must
/// have a code descendant and a class that mentions the prefix.
pub open spec fn lang_of_block(b: (Seq<u8>, bool, Seq<Seq<u8>>, Seq<u8>)) -> Option<Seq<u8>> {
    if b.1 && any_lang_class(b.2) {
        Some(lang_token_of(b.2))
    } else {
        None
    }
}

proof fn lemma_first_lang_at(cs: Seq<Seq<u8>>, i: int)
    requires
        0 <= i < cs.len(),
        lang_prefix().is_prefix_of(cs[i]),
        forall|j: int| 0 <= j < i ==> !lang_prefix().is_prefix_of(#[trigger] cs[j]),
    ensures
        first_lang_class(cs) == Some(cs[i].skip(lang_prefix().len() as int)),
    decreases i,
{
    if i > 0 {
        lemma_first_lang_at(cs.drop_first(), i - 1);
    }
}

proof fn lemma_first_lang_none(cs: Seq<Seq<u8>>)
    requires
        forall|j: int| 0 <= j < cs.len() ==> !lang_prefix().is_prefix_of(#[trigger] cs[j]),
    ensures
        first_lang_class(cs) is None,
    decreases cs.len(),
{
    if cs.len() > 0 {
        lemma_first_lang_none(cs.drop_first());
    }
}

/// The language token of a block's classes: the first prefixed class, or the
/// fallback when the prefix is only mentioned inside a class, or nothing when
/// no class mentions it.
fn lang_of_classes(classes: &Vec<Vec<u8>>) -> (r: Option<Vec<u8>>)
    ensures
        match r {
            Some(l) => any_lang_class(views(classes@)) && l@ == lang_token_of(views(classes@)),
            None => !any_lang_class(views(classes@)),
        },
{
    let prefix = lang_prefix_vec();
    let ghost cs = views(classes@);
    let mut any = false;
    let mut i: usize = 0;
    while i < classes.len()
        invariant
            0 <= i <= classes@.len(),
            cs == views(classes@),
            prefix@ == lang_prefix(),
            any <==> exists|j: int| 0 <= j < i && contains_sub(#[trigger] cs[j], lang_prefix()),
        decreases classes@.len() - i,
    {
        let cls = &classes[i];
        if cls.len() > 0 && find_sub(cls, &prefix, 0).is_some() {
            proof {
                assert(contains_sub(cs[i as int], lang_prefix()));
            }
            any = true;
        }
        i = i + 1;
    }
    if !any {
        return None;
    }
    let mut k: usize = 0;
    while k < classes.len()
        invariant
            0 <= k <= classes@.len(),
            cs == views(classes@),
            prefix@ == lang_prefix(),
            any_lang_class(cs),
            forall|j: int| 0 <= j < k ==> !lang_prefix().is_prefix_of(#[trigger] cs[j]),
        decreases classes@.len() - k,
    {
        let cls = &classes[k];
        if starts_with(cls, &prefix) {
            let stripped = vstd::slice::slice_to_vec(&cls.as_slice()[prefix.len()..cls.len()]);
            proof {
                lemma_first_lang_at(cs, k as int);
                assert(stripped@ =~= cs[k as int].skip(lang_prefix().len() as int));
            }
            return Some(stripped);
        }
        k = k + 1;
    }
    proof {
        lemma_first_lang_none(cs);
    }
    Some(text_token_vec())
}

/// One block view.
pub open spec fn block_views(
    bs: Seq<(Vec<u8>, bool, Vec<Vec<u8>>, Vec<u8>)>,
) -> Seq<(Seq<u8>, bool, Seq<Seq<u8>>, Seq<u8>)> {
    bs.map_values(
        |p: (Vec<u8>, bool, Vec<Vec<u8>>, Vec<u8>)|
            (p.0@, p.1, p.2@.map_values(|c: Vec<u8>| c@), p.3@),
    )
}

/// The body after each scanned block, in order, has its outer markup replaced
/// by the highlighter's output, skipping blocks without a language class.
pub open spec fn highlight_fold(
    body: Seq<u8>,
    blocks: Seq<(Seq<u8>, bool, Seq<Seq<u8>>, Seq<u8>)>,
    theme: Seq<u8>,
) -> Seq<u8>
    decreases blocks.len(),
{
    if blocks.len() == 0 {
        body
    } else {
        let b = blocks[0];
        match lang_of_block(b) {
            None => highlight_fold(body, blocks.drop_first(), theme),
            Some(lang) => if b.0.len() == 0 {
                highlight_fold(body, blocks.drop_first(), theme)
            } else {
                highlight_fold(
                    replace_all_spec(body, b.0, highlighted_of(b.3, lang, theme)),
                    blocks.drop_first(),
                    theme,
                )
            },
        }
    }
}

/// The rendered body after the highlighting pass.
pub open spec fn highlighted_body_of(body: Seq<u8>, theme: Seq<u8>) -> Seq<u8> {
    highlight_fold(body, code_blocks_of(body), theme)
}

/// The body with its table-of-contents placeholder, when present, replaced by
/// the rendered outline of the body's own headings.
pub open spec fn with_toc(body: Seq<u8>) -> Seq<u8> {
    if contains_sub(body, toc_placeholder()) {
        replace_all_spec(
            body,
            toc_placeholder(),
            toc_html_of(outline_of(flat_headings_of(heading_elems_of(body)))),
        )
    } else {
        body
    }
}

/// The document body that one markdown source composes to, under a theme.
pub open spec fn final_body_of(md: Seq<u8>, theme: Seq<u8>) -> Seq<u8> {
    with_toc(highlighted_body_of(rendered_html_of(md), theme))
}

/// The assembled stylesheet: the page theme, the highlighter theme, and the
/// optional custom stylesheet behind its comment header.
pub open spec fn assembled_css(base: Seq<u8>, theme: Seq<u8>, custom: Option<Seq<u8>>) -> Seq<u8> {
    base + seq![10u8] + theme_css_of(theme) + (match custom {
        Some(c) => utf8_of("\n\n/* Custom CSS */\n"@) + c,
        None => Seq::<u8>::empty(),
    })
}

/// The final document: skeleton, language tag, title, author, stylesheet and
/// body, in the one fixed shape.
pub open spec fn document_of(
    lang: Seq<u8>,
    title: Seq<u8>,
    author: Seq<u8>,
    css: Seq<u8>,
    body: Seq<u8>,
) -> Seq<u8> {
    utf8_of("<!DOCTYPE html><html lang=\""@) + lang + utf8_of(
        "\"><head><meta charset=\"UTF-8\"><title>"@,
    ) + title + utf8_of("</title><meta name=\"author\" content=\""@) + author + utf8_of(
        "\"><style>"@,
    ) + css + utf8_of("</style></head><body><main>"@) + body + utf8_of("</main></body></html>"@)
}

/// True when the highlighting pass leaves this block well: it has no
/// language, or nothing to replace, or the highlighter succeeds on it.
pub open spec fn block_ok(b: (Seq<u8>, bool, Seq<Seq<u8>>, Seq<u8>), theme: Seq<u8>) -> bool {
    match lang_of_block(b) {
        Some(lang) => b.0.len() == 0 || highlighted_opt_of(b.3, lang, theme) is Some,
        None => true,
    }
}

/// True when the highlighting pass succeeds on every scanned block.
pub open spec fn all_blocks_highlightable(
    blocks: Seq<(Seq<u8>, bool, Seq<Seq<u8>>, Seq<u8>)>,
    theme: Seq<u8>,
) -> bool {
    forall|i: int| 0 <= i < blocks.len() ==> block_ok(#[trigger] blocks[i], theme)
}

/// True when composing this source under this theme is owed to succeed: the
/// theme is built in, its stylesheet generates, and every scanned code block
/// highlights.
pub open spec fn composes_ok(md: Seq<u8>, theme: Seq<u8>) -> bool {
    theme_in_defaults(theme) && theme_css_opt_of(theme) is Some && all_blocks_highlightable(
        code_blocks_of(rendered_html_of(md)),
        theme,
    )
}

/// Composes the final document from the assembled markdown: renders it,
/// highlights its code blocks, substitutes the table of contents for its
/// placeholder when one is present, assembles the stylesheet (the given theme
/// stylesheet or the built-in default, the highlighter theme, the optional
/// custom stylesheet), and wraps everything in the document skeleton.
/// Succeeds exactly when `composes_ok` holds: a missing theme stylesheet or
/// custom stylesheet only changes the assembled CSS, and an unknown language
/// token falls back to plain text, none of them an error. Fails with
/// `UnknownSyntaxTheme` exactly when the configured highlighter theme is not
/// built in, and with `BuildError`, carrying the underlying message, exactly
/// when the highlighter itself declines.
#[verifier::loop_isolation(false)]
pub fn build_html(
    config: &Config,
    markdown_content: &Vec<u8>,
    theme_css: Option<Vec<u8>>,
    custom_css: Option<Vec<u8>>,
) -> (r: Result<Vec<u8>, AppError>)
    ensures
        match r {
            Ok(doc) => composes_ok(markdown_content@, config.syntax_theme@) && doc@ == document_of(
                config.language@,
                config.title@,
                config.author@,
                assembled_css(
                    match theme_css {
                        Some(t) => t@,
                        None => utf8_of(DEFAULT_THEME_CSS@),
                    },
                    config.syntax_theme@,
                    match custom_css {
                        Some(c) => Some(c@),
                        None => None,
                    },
                ),
                final_body_of(markdown_content@, config.syntax_theme@),
            ),
            Err(e) => match e@ {
                ErrView::UnknownSyntaxTheme(n) => n == config.syntax_theme@
                    && !theme_in_defaults(config.syntax_theme@),
                ErrView::BuildError(_) => theme_in_defaults(config.syntax_theme@) && !composes_ok(
                    markdown_content@,
                    config.syntax_theme@,
                ),
                _ => false,
            },
        },
{
    let st = &config.syntax_theme;
    if !theme_known(st) {
        let name = vstd::slice::slice_to_vec(st.as_slice());
        return Err(AppError::UnknownSyntaxTheme(name));
    }
    let mut body = render_markdown(markdown_content);
    let ghost body0 = body@;
    let blocks = pre_code_blocks(&body);
    let ghost bviews = block_views(blocks@);
    let mut i: usize = 0;
    proof {
        assert(bviews.skip(0) =~= bviews);
    }
    while i < blocks.len()
        invariant
            0 <= i <= blocks@.len(),
            bviews == block_views(blocks@),
            theme_in_defaults(config.syntax_theme@),
            highlight_fold(body@, bviews.skip(i as int), config.syntax_theme@) == highlight_fold(
                body0,
                bviews,
                config.syntax_theme@,
            ),
            forall|j: int|
                0 <= j < i ==> block_ok(#[trigger] bviews[j], config.syntax_theme@),
        decreases blocks@.len() - i,
    {
        let ghost suffix = bviews.skip(i as int);
        proof {
            assert(suffix[0] == bviews[i as int]);
            assert(suffix.drop_first() =~= bviews.skip(i + 1));
        }
        let blk = &blocks[i];
        let ghost th = config.syntax_theme@;
        let ghost pre_body = body@;
        proof {
            assert(bviews[i as int] == (blk.0@, blk.1, blk.2@.map_values(|c: Vec<u8>| c@), blk.3@));
            assert(views(blk.2@) =~= suffix[0].2);
        }
        if blk.1 {
            match lang_of_classes(&blk.2) {
                None => {
                    proof {
                        assert(lang_of_block(suffix[0]) is None);
                        assert(highlight_fold(pre_body, suffix, th) == highlight_fold(
                            body@,
                            suffix.drop_first(),
                            th,
                        ));
                    }
                },
                Some(lang) => {
                    proof {
                        assert(lang_of_block(suffix[0]) == Some(lang@));
                    }
                    if blk.0.len() > 0 {
                        match highlight_code(&blk.3, &lang, st) {
                            Err(msg) => {
                                proof {
                                    assert(!block_ok(bviews[i as int], th));
                                    assert(!all_blocks_highlightable(bviews, th));
                                }
                                return Err(AppError::BuildError(msg));
                            },
                            Ok(h) => {
                                body = replace_all(&body, &blk.0, &h);
                                proof {
                                    assert(block_ok(bviews[i as int], th));
                                    assert(body@ == replace_all_spec(
                                        pre_body,
                                        suffix[0].0,
                                        highlighted_of(suffix[0].3, lang@, th),
                                    ));
                                    assert(highlight_fold(pre_body, suffix, th)
                                        == highlight_fold(body@, suffix.drop_first(), th));
                                }
                            },
                        }
                    } else {
                        proof {
                            assert(highlight_fold(pre_body, suffix, th) == highlight_fold(
                                body@,
                                suffix.drop_first(),
                                th,
                            ));
                        }
                    }
                },
            }
        } else {
            proof {
                assert(lang_of_block(suffix[0]) is None);
                assert(highlight_fold(pre_body, suffix, th) == highlight_fold(
                    body@,
                    suffix.drop_first(),
                    th,
                ));
            }
        }
        i = i + 1;
    }
    proof {
        assert(bviews.skip(bviews.len() as int) =~= Seq::<(Seq<u8>, bool, Seq<Seq<u8>>, Seq<u8>)>::empty());
        assert(body@ == highlighted_body_of(body0, config.syntax_theme@));
        assert(all_blocks_highlightable(bviews, config.syntax_theme@));
    }
    let ph = toc_placeholder_vec();
    let found = find_sub(&body, &ph, 0);
    if found.is_some() {
        let toc = generate_toc_from_html(&body);
        body = replace_all(&body, &ph, &toc);
    }
    proof {
        assert(body@ == with_toc(highlighted_body_of(body0, config.syntax_theme@)));
        assert(body@ == final_body_of(markdown_content@, config.syntax_theme@));
    }
    let mut css = match theme_css {
        Some(t) => t,
        None => str_bytes(DEFAULT_THEME_CSS),
    };
    let syn = match syntax_theme_css(st) {
        Err(msg) => {
            return Err(AppError::BuildError(msg));
        },
        Ok(c) => c,
    };
    let ghost css_base = css@;
    css.push(10u8);
    push_all(&mut css, &syn);
    match &custom_css {
        Some(c) => {
            let header = str_bytes("\n\n/* Custom CSS */\n");
            push_all(&mut css, &header);
            push_all(&mut css, c);
        },
        None => {},
    }
    proof {
        assert(css@ =~= assembled_css(
            css_base,
            config.syntax_theme@,
            match custom_css {
                Some(c) => Some(c@),
                None => None,
            },
        ));
    }
    let mut doc = str_bytes("<!DOCTYPE html><html lang=\"");
    push_all(&mut doc, &config.language);
    let p2 = str_bytes("\"><head><meta charset=\"UTF-8\"><title>");
    push_all(&mut doc, &p2);
    push_all(&mut doc, &config.title);
    let p3 = str_bytes("</title><meta name=\"author\" content=\"");
    push_all(&mut doc, &p3);
    push_all(&mut doc, &config.author);
    let p4 = str_bytes("\"><style>");
    push_all(&mut doc, &p4);
    push_all(&mut doc, &css);
    let p5 = str_bytes("</style></head><body><main>");
    push_all(&mut doc, &p5);
    push_all(&mut doc, &body);
    let p6 = str_bytes("</main></body></html>");
    push_all(&mut doc, &p6);
    proof {
        assert(doc@ =~= document_of(
            config.language@,
            config.title@,
            config.author@,
            css@,
            body@,
        ));
    }
    Ok(doc)
}


} // verus!
