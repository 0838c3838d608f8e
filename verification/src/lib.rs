//! Incremental compilation database for a module-based language.
//!
//! The crate tracks a set of source modules and the artifacts the
//! compilation pipeline derives from them, one staged cache per artifact
//! kind: source text, concrete syntax tree, symbol table, lowered tree,
//! type information table, checked tree, and two span-indexed editor
//! tables.  It rebuilds the module dependency graph from import
//! declarations, rejects import cycles with an explicit witness, answers
//! reverse-dependency queries, and invalidates every artifact that
//! transitively depends on an edited module.  The pipeline stages
//! themselves and the source provider are collaborators supplied by the
//! embedder; the database never recomputes an artifact whose trusted
//! cache entry is present, and never serves an entry marked stale.

pub mod cache;
pub mod database;
pub mod dependency_graph;
pub mod docs;
pub mod escape;
pub mod fs;
pub mod lowering;
pub mod pipeline;
pub mod render_html;
pub mod repl;
pub mod result;
pub mod uri;
pub mod xfunc;
