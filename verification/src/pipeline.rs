use vstd::prelude::*;

use std::sync::Arc;

use crate::result::{LoweringError, ParseError, TypeError};
use crate::uri::Url;

verus! {

/// The outcome of parsing one module: the concrete syntax tree together
/// with the textual module references of its import declarations, in
/// declaration order.
pub struct ParsedModule<C> {
    pub tree: Arc<C>,
    pub use_decls: Vec<String>,
}

/// The stage functions of the compilation pipeline, supplied by the
/// embedder: each one turns the artifacts of the previous stage into the
/// next artifact kind.  The database never inspects an artifact; it only
/// caches them, wires the stages together in order, and hands each stage
/// the artifacts of the module's direct dependencies where the stage needs
/// them.  A stage reports failure in its own error kind; the database wraps
/// it, attributing it to the module, and caches it where the stage's
/// outcome is cached.
pub trait Pipeline {
    /// A parsed module (concrete syntax tree).
    type Cst;

    /// The symbol table of one module.
    type SymbolTable;

    /// A lowered, not yet typechecked, syntax tree.
    type Ust;

    /// The type information table of one module.
    type TypeInfoTable;

    /// A typechecked syntax tree.
    type Ast;

    /// Hover information for spans, indexed for editor tooling.
    type InfoIndex;

    /// Spans of top-level items, indexed for editor tooling.
    type ItemIndex;

    /// Turns one module's source text into its concrete syntax tree and
    /// import list.
    fn parse(&mut self, uri: &Url, source: &String) -> (r: Result<
        ParsedModule<Self::Cst>,
        ParseError,
    >);

    /// Builds one module's symbol table from its concrete syntax tree.
    fn build_symbol_table(&mut self, uri: &Url, cst: &Self::Cst) -> (r: Result<
        Self::SymbolTable,
        LoweringError,
    >);

    /// Lowers one module, given the symbol tables of the module itself and
    /// of its direct dependencies.  The stage must not depend on the order
    /// of that collection.
    fn lower(
        &mut self,
        uri: &Url,
        cst: &Self::Cst,
        symbol_tables: &Vec<(Url, Arc<Self::SymbolTable>)>,
    ) -> (r: Result<Self::Ust, LoweringError>);

    /// Builds one module's type information table; this stage cannot fail.
    fn build_type_info_table(&mut self, uri: &Url, ust: &Self::Ust) -> (r: Self::TypeInfoTable);

    /// Typechecks one module, given the type information tables of the
    /// module itself and of its direct dependencies.  The stage must not
    /// depend on the order of that collection.
    fn typecheck(
        &mut self,
        uri: &Url,
        ust: &Self::Ust,
        info_tables: &Vec<(Url, Arc<Self::TypeInfoTable>)>,
    ) -> (r: Result<Self::Ast, TypeError>);

    /// Collects the span-indexed editor tables from a typechecked module.
    fn collect_info(&mut self, uri: &Url, ast: &Self::Ast) -> (r: (Self::InfoIndex, Self::ItemIndex));
}

} // verus!
