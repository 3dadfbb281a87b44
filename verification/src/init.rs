//! The contents of a freshly scaffolded project: the configuration file, the
//! top-level source file and the first chapter. Writing them to disk is the
//! caller's business; everything here is pure text assembly.

use vstd::prelude::*;

use crate::bytes::{utf8_of, str_bytes, push_all, replace_all, replace_all_spec};

verus! {

/// The lowercase form of a text.
pub uninterp spec fn lower_of(s: Seq<u8>) -> Seq<u8>;

/// Relies on str::to_lowercase: the result depends on the text alone.
#[verifier::external_body]
fn lowercase(b: &Vec<u8>) -> (r: Vec<u8>)
    ensures
        r@ == lower_of(b@),
{
    String::from_utf8_lossy(b.as_slice()).to_lowercase().into_bytes()
}

/// The output name derived from a title: lowercased, spaces turned to dashes.
pub open spec fn output_stem_of(title: Seq<u8>) -> Seq<u8> {
    replace_all_spec(lower_of(title), seq![32u8], seq![45u8])
}

/// The scaffolded configuration file.
pub open spec fn config_yaml_of(title: Seq<u8>, author: Seq<u8>, language: Seq<u8>) -> Seq<u8> {
    utf8_of("title: \""@) + title + utf8_of("\"\nauthor: \""@) + author + utf8_of(
        "\"\nlanguage: \""@,
    ) + language + utf8_of(
        "\"\ntheme: \"dark\"\nsyntax_theme: \"InspiredGitHub\"\nsource: \"main.md\"\ncustom_css: \"\"\noutput:\n  filename: \""@,
    ) + output_stem_of(title) + utf8_of(
        "\"\n# Margins in inches (optional)\n# margins:\n#   top: 1.0\n#   bottom: 1.0\n#   left: 1.0\n#   right: 1.0\n"@,
    )
}

/// The scaffolded top-level source file.
pub open spec fn main_md_of(title: Seq<u8>, author: Seq<u8>) -> Seq<u8> {
    utf8_of("# "@) + title + utf8_of("\nBy "@) + author + utf8_of(
        "\nWelcome!\n!include(chapters/chapter1.md)\n"@,
    )
}

/// The scaffolded first chapter.
pub open spec fn chapter_md_of() -> Seq<u8> {
    utf8_of("## Chapter 1\n\nContent of chapter 1."@)
}

/// The default title for a scaffolded project.
pub open spec fn default_title() -> Seq<u8> {
    utf8_of("My Awesome PDF"@)
}

/// The default author for a scaffolded project.
pub open spec fn default_author() -> Seq<u8> {
    utf8_of("Your Name"@)
}

/// The default language tag for a scaffolded project.
pub open spec fn default_language() -> Seq<u8> {
    utf8_of("en"@)
}

/// The three files of a fresh project, in order: the configuration file, the
/// top-level source file, and the first chapter. Missing settings fall back
/// to the defaults.
pub fn init_project_files(
    title: Option<Vec<u8>>,
    author: Option<Vec<u8>>,
    language: Option<Vec<u8>>,
) -> (r: (Vec<u8>, Vec<u8>, Vec<u8>))
    ensures
        ({
            let t = match title {
                Some(t) => t@,
                None => default_title(),
            };
            let a = match author {
                Some(a) => a@,
                None => default_author(),
            };
            let l = match language {
                Some(l) => l@,
                None => default_language(),
            };
            r.0@ == config_yaml_of(t, a, l) && r.1@ == main_md_of(t, a) && r.2@
                == chapter_md_of()
        }),
{
    let ghost ts = match &title {
        Some(t) => t@,
        None => default_title(),
    };
    let ghost asq = match &author {
        Some(a) => a@,
        None => default_author(),
    };
    let ghost ls = match &language {
        Some(l) => l@,
        None => default_language(),
    };
    let t = match title {
        Some(t) => t,
        None => str_bytes("My Awesome PDF"),
    };
    let a = match author {
        Some(a) => a,
        None => str_bytes("Your Name"),
    };
    let l = match language {
        Some(l) => l,
        None => str_bytes("en"),
    };
    let lowered = lowercase(&t);
    let mut space: Vec<u8> = Vec::new();
    space.push(32u8);
    let mut dash: Vec<u8> = Vec::new();
    dash.push(45u8);
    proof {
        assert(space@ =~= seq![32u8]);
        assert(dash@ =~= seq![45u8]);
    }
    let stem = replace_all(&lowered, &space, &dash);
    let mut cfg = str_bytes("title: \"");
    push_all(&mut cfg, &t);
    let c2 = str_bytes("\"\nauthor: \"");
    push_all(&mut cfg, &c2);
    push_all(&mut cfg, &a);
    let c3 = str_bytes("\"\nlanguage: \"");
    push_all(&mut cfg, &c3);
    push_all(&mut cfg, &l);
    let c4 = str_bytes(
        "\"\ntheme: \"dark\"\nsyntax_theme: \"InspiredGitHub\"\nsource: \"main.md\"\ncustom_css: \"\"\noutput:\n  filename: \"",
    );
    push_all(&mut cfg, &c4);
    push_all(&mut cfg, &stem);
    let c5 = str_bytes(
        "\"\n# Margins in inches (optional)\n# margins:\n#   top: 1.0\n#   bottom: 1.0\n#   left: 1.0\n#   right: 1.0\n",
    );
    push_all(&mut cfg, &c5);
    let mut main_md = str_bytes("# ");
    push_all(&mut main_md, &t);
    let m2 = str_bytes("\nBy ");
    push_all(&mut main_md, &m2);
    push_all(&mut main_md, &a);
    let m3 = str_bytes("\nWelcome!\n!include(chapters/chapter1.md)\n");
    push_all(&mut main_md, &m3);
    let chapter = str_bytes("## Chapter 1\n\nContent of chapter 1.");
    proof {
        assert(cfg@ =~= config_yaml_of(ts, asq, ls));
        assert(main_md@ =~= main_md_of(ts, asq));
    }
    (cfg, main_md, chapter)
}

} // verus!
