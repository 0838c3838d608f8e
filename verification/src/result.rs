use vstd::prelude::*;

use crate::uri::Url;

verus! {

/// A byte range in a module's source text.
#[derive(Clone, Copy, PartialEq, Eq, Structural, Debug)]
pub struct Span {
    pub start: usize,
    pub end: usize,
}

/// The error taxonomy of the database.
///
/// Every variant carries enough structured information (module identifier,
/// span where applicable, cycle witness where applicable) for a caller to
/// render a diagnostic; the database itself renders nothing.
#[derive(Debug)]
pub enum Error {
    /// The source provider knows no module under this identifier.
    NotFound { uri: Url },
    /// The source provider failed to read or write a module.
    Io { uri: Url, message: String },
    /// The parser rejected a module's source text.
    Parser { uri: Url, message: String, span: Option<Span> },
    /// Lowering failed, e.g. an undefined or an already defined identifier.
    Lowering { message: String, span: Option<Span> },
    /// The typechecker rejected a module.
    Type { message: String, span: Option<Span> },
    /// The import graph contains a cycle.  `witness` is the traversal stack
    /// at the moment the cycle was observed, in traversal order; `module` is
    /// the stack member that was reached a second time.
    ImportCycle { module: Url, witness: Vec<Url> },
    /// An import declaration's module reference could not be resolved
    /// against the importing module's identifier.
    UrlResolution { base: Url, reference: String },
    /// An internal invariant of the database was violated.
    Impossible { message: String },
}

/// The mathematical shape of an `Error`, with every text by view.
pub enum ErrorView {
    NotFound { uri: Seq<char> },
    Io { uri: Seq<char>, message: Seq<char> },
    Parser { uri: Seq<char>, message: Seq<char>, span: Option<Span> },
    Lowering { message: Seq<char>, span: Option<Span> },
    Type { message: Seq<char>, span: Option<Span> },
    ImportCycle { module: Seq<char>, witness: Seq<Seq<char>> },
    UrlResolution { base: Seq<char>, reference: Seq<char> },
    Impossible { message: Seq<char> },
}

impl View for Error {
    type V = ErrorView;

    open spec fn view(&self) -> ErrorView {
        match self {
            Error::NotFound { uri } => ErrorView::NotFound { uri: uri@ },
            Error::Io { uri, message } => ErrorView::Io { uri: uri@, message: message@ },
            Error::Parser { uri, message, span } => ErrorView::Parser {
                uri: uri@,
                message: message@,
                span: *span,
            },
            Error::Lowering { message, span } => ErrorView::Lowering {
                message: message@,
                span: *span,
            },
            Error::Type { message, span } => ErrorView::Type { message: message@, span: *span },
            Error::ImportCycle { module, witness } => ErrorView::ImportCycle {
                module: module@,
                witness: witness.deep_view(),
            },
            Error::UrlResolution { base, reference } => ErrorView::UrlResolution {
                base: base@,
                reference: reference@,
            },
            Error::Impossible { message } => ErrorView::Impossible { message: message@ },
        }
    }
}

impl Error {
    /// An exact copy, so that a cached error can both stay in its cache and
    /// be handed to the caller.
    pub fn duplicate(&self) -> (r: Error)
        ensures
            r@ == self@,
    {
        match self {
            Error::NotFound { uri } => Error::NotFound { uri: uri.clone() },
            Error::Io { uri, message } => Error::Io {
                uri: uri.clone(),
                message: message.clone(),
            },
            Error::Parser { uri, message, span } => Error::Parser {
                uri: uri.clone(),
                message: message.clone(),
                span: *span,
            },
            Error::Lowering { message, span } => Error::Lowering {
                message: message.clone(),
                span: *span,
            },
            Error::Type { message, span } => Error::Type {
                message: message.clone(),
                span: *span,
            },
            Error::ImportCycle { module, witness } => Error::ImportCycle {
                module: module.clone(),
                witness: clone_urls(witness),
            },
            Error::UrlResolution { base, reference } => Error::UrlResolution {
                base: base.clone(),
                reference: reference.clone(),
            },
            Error::Impossible { message } => Error::Impossible { message: message.clone() },
        }
    }
}

/// A failure of the source provider, in the provider's own terms; the
/// database wraps it into its error type.
#[derive(Debug)]
pub enum SourceError {
    /// The provider serves no module under this identifier.
    NotFound { uri: Url },
    /// The provider failed to read or write a served module.
    Io { uri: Url, message: String },
}

/// A failure of the parsing stage, in the stage's own terms.
#[derive(Debug)]
pub struct ParseError {
    pub message: String,
    pub span: Option<Span>,
}

/// A failure of the symbol-table or lowering stage, in the stage's own
/// terms, e.g. an undefined or an already defined identifier.
#[derive(Debug)]
pub struct LoweringError {
    pub message: String,
    pub span: Option<Span>,
}

/// A failure of the typechecking stage, in the stage's own terms.
#[derive(Debug)]
pub struct TypeError {
    pub message: String,
    pub span: Option<Span>,
}

/// An exact copy of a list of module identifiers.
pub(crate) fn clone_urls(v: &Vec<Url>) -> (r: Vec<Url>)
    ensures
        r@ == v@,
{
    let mut r: Vec<Url> = Vec::new();
    let mut i: usize = 0;
    while i < v.len()
        invariant
            i <= v.len(),
            r@ =~= v@.take(i as int),
        decreases v.len() - i,
    {
        r.push(v[i].clone());
        i = i + 1;
    }
    proof {
        assert(r@ =~= v@);
    }
    r
}

} // verus!
