//! The two kinds of failure: of parsing and of generation.

use vstd::prelude::*;

verus! {

/// A range of byte offsets into the markup, `end` exclusive.
#[derive(Clone, Copy, Debug, PartialEq, Eq, Structural)]
pub struct Span {
    pub start: usize,
    pub end: usize,
}

/// What is wrong with a piece of markup.
#[derive(Clone, Copy, Debug, PartialEq, Eq, Structural)]
pub enum SyntaxErrorKind {
    /// The markup does not follow the grammar at the given place.
    Malformed,
    /// A tag or fragment is not closed, or is closed under another name.
    UnmatchedTag,
    /// A named attribute repeats the name of an earlier named attribute.
    DuplicateAttribute,
    /// A node carries a second spread that cannot be expanded in place.
    MultipleSpreads,
    /// A conditional or iteration child does not have the expected form.
    MalformedControl,
}

/// A failure of parsing, with the place of the offending markup.
#[derive(Clone, Copy, Debug, PartialEq, Eq, Structural)]
pub struct SyntaxError {
    pub kind: SyntaxErrorKind,
    pub span: Span,
}

/// What cannot be generated.
#[derive(Clone, Copy, Debug, PartialEq, Eq, Structural)]
pub enum GenerationErrorKind {
    /// A node names an attribute that its tag does not declare.
    UnresolvedAttribute,
    /// A node spreads an expression that is no record literal.
    NonRecordSpread,
    /// A component parameter follows no known binding convention.
    UnmatchedParameter,
}

/// A failure of generation: the kind, the tag or component concerned, and
/// the attribute or parameter concerned (empty for a spread).
#[derive(Clone, Debug, PartialEq, Eq)]
pub struct GenerationError {
    pub kind: GenerationErrorKind,
    pub subject: Vec<u8>,
    pub name: Vec<u8>,
}

/// The model of a [`GenerationError`].
pub struct GenerationErrorModel {
    pub kind: GenerationErrorKind,
    pub subject: Seq<u8>,
    pub name: Seq<u8>,
}

impl View for GenerationError {
    type V = GenerationErrorModel;

    open spec fn view(&self) -> GenerationErrorModel {
        GenerationErrorModel { kind: self.kind, subject: self.subject@, name: self.name@ }
    }
}

/// Either failure of an expansion.
#[derive(Clone, Debug, PartialEq, Eq)]
pub enum Error {
    Syntax(SyntaxError),
    Generation(GenerationError),
}

/// The model of an [`Error`].
pub enum ErrorModel {
    Syntax(SyntaxError),
    Generation(GenerationErrorModel),
}

impl View for Error {
    type V = ErrorModel;

    open spec fn view(&self) -> ErrorModel {
        match *self {
            Error::Syntax(e) => ErrorModel::Syntax(e),
            Error::Generation(e) => ErrorModel::Generation(e@),
        }
    }
}

} // verus!
