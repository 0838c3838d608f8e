use vstd::prelude::*;

use crate::result::Span;

verus! {

/// One replacement of a source span by new text.
pub struct Edit {
    pub span: Span,
    pub text: String,
}

/// The outcome of de- or refunctionalizing one type: a title for the
/// code action, and the edits that rewrite the module's source.
pub struct Xfunc {
    pub title: String,
    pub edits: Vec<Edit>,
}

} // verus!
