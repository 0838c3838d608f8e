use std::cell::RefCell;
use std::rc::Rc;
use std::sync::Arc;

use driver::database::Database;
use driver::fs::{FileSource, InMemorySource};
use driver::pipeline::{ParsedModule, Pipeline};
use driver::result::{Error, LoweringError, ParseError, TypeError};
use driver::uri::Url;

/// A toy concrete syntax tree: declared names, referenced names, imports.
#[derive(Debug)]
struct Cst {
    decls: Vec<String>,
    refs: Vec<String>,
}

/// How often each stage function ran, shared with the test body.
#[derive(Clone, Default)]
struct Counters {
    parses: Rc<RefCell<usize>>,
    symtabs: Rc<RefCell<usize>>,
    lowers: Rc<RefCell<usize>>,
    typechecks: Rc<RefCell<usize>>,
}

/// A counting stub pipeline over a toy line-based module format:
/// `use <path>` declares an import, `data <name>` declares a name,
/// `ref <name>` references a name that some symbol table must declare.
struct StubPipeline {
    counters: Counters,
}

impl Pipeline for StubPipeline {
    type Cst = Cst;
    type SymbolTable = Vec<String>;
    type Ust = Vec<String>;
    type TypeInfoTable = Vec<String>;
    type Ast = Vec<String>;
    type InfoIndex = usize;
    type ItemIndex = usize;

    fn parse(&mut self, _uri: &Url, source: &String) -> Result<ParsedModule<Cst>, ParseError> {
        *self.counters.parses.borrow_mut() += 1;
        let mut imports = Vec::new();
        let mut decls = Vec::new();
        let mut refs = Vec::new();
        for line in source.lines() {
            let line = line.trim();
            if line.is_empty() {
                continue;
            }
            if let Some(rest) = line.strip_prefix("use ") {
                imports.push(rest.to_string());
            } else if let Some(rest) = line.strip_prefix("data ") {
                decls.push(rest.to_string());
            } else if let Some(rest) = line.strip_prefix("ref ") {
                refs.push(rest.to_string());
            } else {
                return Err(ParseError {
                    message: format!("unexpected line: {line}"),
                    span: None,
                });
            }
        }
        Ok(ParsedModule { tree: Arc::new(Cst { decls, refs }), use_decls: imports })
    }

    fn build_symbol_table(&mut self, _uri: &Url, cst: &Cst) -> Result<Vec<String>, LoweringError> {
        *self.counters.symtabs.borrow_mut() += 1;
        Ok(cst.decls.clone())
    }

    fn lower(
        &mut self,
        _uri: &Url,
        cst: &Cst,
        symbol_tables: &Vec<(Url, Arc<Vec<String>>)>,
    ) -> Result<Vec<String>, LoweringError> {
        *self.counters.lowers.borrow_mut() += 1;
        for r in &cst.refs {
            if !symbol_tables.iter().any(|(_, table)| table.contains(r)) {
                return Err(LoweringError {
                    message: format!("undefined identifier {r}"),
                    span: None,
                });
            }
        }
        Ok(cst.refs.clone())
    }

    fn build_type_info_table(&mut self, _uri: &Url, ust: &Vec<String>) -> Vec<String> {
        ust.clone()
    }

    fn typecheck(
        &mut self,
        _uri: &Url,
        ust: &Vec<String>,
        _info_tables: &Vec<(Url, Arc<Vec<String>>)>,
    ) -> Result<Vec<String>, TypeError> {
        *self.counters.typechecks.borrow_mut() += 1;
        Ok(ust.clone())
    }

    fn collect_info(&mut self, _uri: &Url, ast: &Vec<String>) -> (usize, usize) {
        (ast.len(), ast.len())
    }
}

fn uri(name: &str) -> Url {
    format!("file:///{name}")
}

fn database(
    modules: &[(&str, &str)],
) -> (Database<InMemorySource, StubPipeline>, Counters) {
    let mut source = InMemorySource::new();
    for (name, text) in modules {
        source.write_string(&uri(name), text).unwrap();
    }
    let counters = Counters::default();
    let mut db = Database::from_source(source, StubPipeline { counters: counters.clone() });
    for (name, _) in modules {
        db.source(&uri(name)).unwrap();
    }
    (db, counters)
}

#[test]
fn acyclic_modules_build_exact_import_lists() {
    let (mut db, _) = database(&[
        ("a.lang", "use b.lang\nuse c.lang\ndata A"),
        ("b.lang", "use c.lang\ndata B"),
        ("c.lang", "data C"),
    ]);
    db.build_dependency_dag().unwrap();
    assert_eq!(
        db.deps.get(&uri("a.lang")),
        Some(&vec![uri("b.lang"), uri("c.lang")])
    );
    assert_eq!(db.deps.get(&uri("b.lang")), Some(&vec![uri("c.lang")]));
    assert!(db.deps.get(&uri("c.lang")).unwrap().is_empty());
}

#[test]
fn import_cycle_is_rejected_with_witness() {
    let (mut db, _) = database(&[
        ("a.lang", "use b.lang"),
        ("b.lang", "use c.lang"),
        ("c.lang", "use a.lang"),
    ]);
    let err = db.build_dependency_dag().unwrap_err();
    match err {
        Error::ImportCycle { module, witness } => {
            assert_eq!(module, uri("a.lang"));
            assert_eq!(witness, vec![uri("a.lang"), uri("b.lang"), uri("c.lang")]);
        }
        other => panic!("expected an import cycle, got {other:?}"),
    }
}

#[test]
fn self_import_is_rejected() {
    let (mut db, _) = database(&[("a.lang", "use a.lang")]);
    let err = db.build_dependency_dag().unwrap_err();
    match err {
        Error::ImportCycle { module, witness } => {
            assert_eq!(module, uri("a.lang"));
            assert_eq!(witness, vec![uri("a.lang")]);
        }
        other => panic!("expected an import cycle, got {other:?}"),
    }
}

#[test]
fn cache_hit_avoids_recomputation() {
    let (mut db, counters) = database(&[("a.lang", "data A")]);
    db.build_dependency_dag().unwrap();
    db.ust(&uri("a.lang")).unwrap();
    assert_eq!(*counters.lowers.borrow(), 1);
    assert_eq!(*counters.parses.borrow(), 1);
    db.ust(&uri("a.lang")).unwrap();
    assert_eq!(*counters.lowers.borrow(), 1);
    assert_eq!(*counters.parses.borrow(), 1);
}

#[test]
fn invalidation_cascades_to_importers() {
    let (mut db, counters) = database(&[
        ("a.lang", "use b.lang\nref B"),
        ("b.lang", "data B"),
    ]);
    db.build_dependency_dag().unwrap();
    db.ust(&uri("b.lang")).unwrap();
    db.ust(&uri("a.lang")).unwrap();
    assert_eq!(*counters.lowers.borrow(), 2);
    db.invalidate(&uri("b.lang")).unwrap();
    // A was invalidated through the reverse-dependency cascade, so its
    // lowered tree is rebuilt, and with it B's symbol table.
    let symtabs_before = *counters.symtabs.borrow();
    db.ust(&uri("a.lang")).unwrap();
    assert_eq!(*counters.lowers.borrow(), 3);
    assert!(*counters.symtabs.borrow() > symtabs_before);
    // B's own lowered tree is also no longer trusted.
    db.ust(&uri("b.lang")).unwrap();
    assert_eq!(*counters.lowers.borrow(), 4);
}

#[test]
fn rebuild_is_idempotent() {
    let (mut db, counters) = database(&[
        ("a.lang", "use b.lang"),
        ("b.lang", "data B"),
    ]);
    db.build_dependency_dag().unwrap();
    let parses = *counters.parses.borrow();
    let a_deps = db.deps.get(&uri("a.lang")).unwrap().clone();
    let b_deps = db.deps.get(&uri("b.lang")).unwrap().clone();
    db.build_dependency_dag().unwrap();
    assert_eq!(*counters.parses.borrow(), parses);
    assert_eq!(db.deps.get(&uri("a.lang")), Some(&a_deps));
    assert_eq!(db.deps.get(&uri("b.lang")), Some(&b_deps));
}

#[test]
fn load_module_resolves_across_imports() {
    let (mut db, _) = database(&[
        ("a.lang", "use b.lang\nref Nat"),
        ("b.lang", "data Nat\ndata Z\ndata S"),
    ]);
    let ast = db.load_module(&uri("a.lang")).unwrap();
    assert_eq!(*ast, vec!["Nat".to_string()]);
}

#[test]
fn load_module_fails_on_unresolved_name() {
    let (mut db, _) = database(&[
        ("a.lang", "use b.lang\nref Bool"),
        ("b.lang", "data Nat"),
    ]);
    let err = db.load_module(&uri("a.lang")).unwrap_err();
    match err {
        Error::Lowering { message, .. } => {
            assert_eq!(message, "undefined identifier Bool");
        }
        other => panic!("expected a lowering failure, got {other:?}"),
    }
}

#[test]
fn edit_surfaces_parse_error_of_dependency() {
    let (mut db, _) = database(&[
        ("a.lang", "use b.lang\nref Nat"),
        ("b.lang", "data Nat"),
    ]);
    db.load_module(&uri("a.lang")).unwrap();
    // Introduce a syntax error into b.lang, then invalidate it.
    db.write_source(&uri("b.lang"), "data Nat\nsyntax error here").unwrap();
    let err = db.invalidate(&uri("b.lang")).unwrap_err();
    match &err {
        Error::Parser { uri: at, .. } => assert_eq!(at, &uri("b.lang")),
        other => panic!("expected a parse error, got {other:?}"),
    }
    // Demanding a's lowered tree surfaces the parse error attributed to
    // b.lang, not a stale success for a.
    let err = db.ust(&uri("a.lang")).unwrap_err();
    match &err {
        Error::Parser { uri: at, .. } => assert_eq!(at, &uri("b.lang")),
        other => panic!("expected a parse error, got {other:?}"),
    }
}

#[test]
fn invalidation_leaves_unrelated_modules_alone() {
    let (mut db, counters) = database(&[
        ("a.lang", "data A"),
        ("b.lang", "data B"),
    ]);
    db.build_dependency_dag().unwrap();
    db.ust(&uri("a.lang")).unwrap();
    db.ust(&uri("b.lang")).unwrap();
    assert_eq!(*counters.lowers.borrow(), 2);
    db.invalidate(&uri("b.lang")).unwrap();
    // a does not depend on b, so its lowered tree is still trusted
    db.ust(&uri("a.lang")).unwrap();
    assert_eq!(*counters.lowers.borrow(), 2);
}

#[test]
fn invalidating_an_unknown_module_succeeds() {
    let (mut db, _) = database(&[("a.lang", "data A")]);
    db.invalidate(&uri("ghost.lang")).unwrap();
    assert!(db.source(&uri("a.lang")).is_ok());
}

#[test]
fn missing_module_is_reported() {
    let (mut db, _) = database(&[]);
    let err = db.source(&uri("nowhere.lang")).unwrap_err();
    assert!(matches!(err, Error::NotFound { .. }));
}

#[test]
fn unresolvable_import_reference_is_reported() {
    let mut source = InMemorySource::new();
    // The module identifier is not an absolute URL, so its import
    // references cannot be resolved against it.
    source.write_string(&"not a url".to_string(), "use b.lang").unwrap();
    let counters = Counters::default();
    let mut db = Database::from_source(source, StubPipeline { counters });
    db.source(&"not a url".to_string()).unwrap();
    let err = db.build_dependency_dag().unwrap_err();
    match err {
        Error::UrlResolution { base, reference } => {
            assert_eq!(base, "not a url".to_string());
            assert_eq!(reference, "b.lang".to_string());
        }
        other => panic!("expected a resolution failure, got {other:?}"),
    }
}

#[test]
fn load_imports_loads_direct_dependencies_only() {
    let (mut db, counters) = database(&[
        ("a.lang", "use b.lang"),
        ("b.lang", "use c.lang"),
        ("c.lang", "data C"),
    ]);
    db.load_imports(&uri("a.lang")).unwrap();
    // b was typechecked; a itself was not.
    assert_eq!(*counters.typechecks.borrow(), 1);
}

#[test]
fn reverse_dependencies_are_transitive() {
    let (mut db, _) = database(&[
        ("a.lang", "use b.lang"),
        ("b.lang", "use c.lang"),
        ("c.lang", "data C"),
    ]);
    db.build_dependency_dag().unwrap();
    let mut rev = db.deps.reverse_dependencies(&uri("c.lang"));
    rev.sort();
    assert_eq!(rev, vec![uri("a.lang"), uri("b.lang")]);
    let rev_a = db.deps.reverse_dependencies(&uri("a.lang"));
    assert!(rev_a.is_empty());
}

#[test]
fn parse_errors_are_cached_until_invalidated() {
    let (mut db, counters) = database(&[("a.lang", "nonsense")]);
    assert!(db.cst(&uri("a.lang")).is_err());
    assert!(db.cst(&uri("a.lang")).is_err());
    assert_eq!(*counters.parses.borrow(), 1);
}

#[test]
fn checked_trees_are_cached() {
    let (mut db, counters) = database(&[
        ("a.lang", "use b.lang
ref Nat"),
        ("b.lang", "data Nat"),
    ]);
    db.load_module(&uri("a.lang")).unwrap();
    let typechecks = *counters.typechecks.borrow();
    let parses = *counters.parses.borrow();
    db.load_module(&uri("a.lang")).unwrap();
    assert_eq!(*counters.typechecks.borrow(), typechecks);
    assert_eq!(*counters.parses.borrow(), parses);
}

#[test]
fn duplicate_imports_are_permitted_in_order() {
    let (mut db, _) = database(&[
        ("a.lang", "use b.lang
use b.lang"),
        ("b.lang", "data B"),
    ]);
    db.build_dependency_dag().unwrap();
    assert_eq!(
        db.deps.get(&uri("a.lang")),
        Some(&vec![uri("b.lang"), uri("b.lang")])
    );
}

#[test]
fn empty_module_set_builds_trivially() {
    let (mut db, counters) = database(&[]);
    db.build_dependency_dag().unwrap();
    assert_eq!(*counters.parses.borrow(), 0);
}

#[test]
fn write_source_stores_new_text() {
    let (mut db, _) = database(&[("a.lang", "data A")]);
    db.write_source(&uri("a.lang"), "data B").unwrap();
    // The pre-write invalidation re-read the old text, so one more
    // invalidation is needed before demands see the stored text.
    db.invalidate(&uri("a.lang")).unwrap();
    let text = db.source(&uri("a.lang")).unwrap();
    assert_eq!(text, "data B");
}
