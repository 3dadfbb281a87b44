//! The build configuration, immutable during one build. Callers that load it
//! from disk convert their own representation into this one.

use vstd::prelude::*;

verus! {

/// Where the composed document goes.
#[derive(Debug, Clone)]
pub struct OutputConfig {
    pub filename: Vec<u8>,
}

/// One build's settings: document metadata, theme names, the source file, and
/// the output name.
#[derive(Debug, Clone)]
pub struct Config {
    pub title: Vec<u8>,
    pub author: Vec<u8>,
    pub language: Vec<u8>,
    pub theme: Vec<u8>,
    pub syntax_theme: Vec<u8>,
    pub source: Vec<u8>,
    pub custom_css: Option<Vec<u8>>,
    pub output: OutputConfig,
}

} // verus!
