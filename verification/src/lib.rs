//! A document assembly engine for multi-file Markdown books: a recursive
//! source resolver that merges a tree of files into one document while
//! enforcing a filesystem sandbox and rejecting cyclic inclusion, and a
//! table-of-contents builder that turns the rendered headings into a nested
//! outline and serializes it as markup. Markdown rendering, HTML scanning and
//! code highlighting are outside collaborators, reached through a few trusted
//! functions; everything around them carries a proved contract.

pub mod bytes;
pub mod compose;
pub mod config;
pub mod directive;
pub mod error;
pub mod init;
pub mod outline;
pub mod path;
pub mod resolver;
pub mod toc_html;
