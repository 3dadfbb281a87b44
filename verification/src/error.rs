//! The library's error type. Every variant carries the offending path or name
//! as bytes; callers that report errors format the message themselves.

use vstd::prelude::*;

verus! {

/// One build failure.
#[derive(Debug, Clone, PartialEq, Eq)]
pub enum AppError {
    /// A referenced source file, top level or spliced in, cannot be read.
    SourceNotFound(Vec<u8>),
    /// The inclusion graph revisits a path within one build.
    CircularDependency(Vec<u8>),
    /// An inclusion target resolves outside the project root.
    UnauthorizedAccess(Vec<u8>),
    /// The configured highlighter theme is not among the built-in themes.
    UnknownSyntaxTheme(Vec<u8>),
    /// Any downstream rendering failure, with the underlying message.
    BuildError(Vec<u8>),
}

/// The mathematical image of an `AppError`.
pub enum ErrView {
    SourceNotFound(Seq<u8>),
    CircularDependency(Seq<u8>),
    UnauthorizedAccess(Seq<u8>),
    UnknownSyntaxTheme(Seq<u8>),
    BuildError(Seq<u8>),
}

impl View for AppError {
    type V = ErrView;

    open spec fn view(&self) -> ErrView {
        match self {
            AppError::SourceNotFound(p) => ErrView::SourceNotFound(p@),
            AppError::CircularDependency(p) => ErrView::CircularDependency(p@),
            AppError::UnauthorizedAccess(p) => ErrView::UnauthorizedAccess(p@),
            AppError::UnknownSyntaxTheme(p) => ErrView::UnknownSyntaxTheme(p@),
            AppError::BuildError(p) => ErrView::BuildError(p@),
        }
    }
}

} // verus!
