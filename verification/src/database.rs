use vstd::prelude::*;
use vstd::string::StringExecFns;

use std::sync::Arc;

use crate::cache::{arc_clone, Cache, CacheEntry};
use crate::dependency_graph::{contains_url, DependencyGraph};
use crate::fs::{FileSource, InMemorySource};
use crate::pipeline::{ParsedModule, Pipeline};
use crate::result::{clone_urls, Error, ErrorView, SourceError};
use crate::uri::{join_of, join_url, Url};

verus! {

/// The entry for `k` is present and trusted.
pub open spec fn fresh_at<V>(m: Map<Seq<char>, CacheEntry<V>>, k: Seq<char>) -> bool {
    m.contains_key(k) && !m[k].stale
}

/// The entry for `k`, if any, is marked stale.
pub open spec fn stale_or_absent<V>(m: Map<Seq<char>, CacheEntry<V>>, k: Seq<char>) -> bool {
    m.contains_key(k) ==> m[k].stale
}

/// No entry was dropped, and no trusted entry was changed or distrusted.
pub open spec fn preserves_entries<V>(
    pre: Map<Seq<char>, CacheEntry<V>>,
    post: Map<Seq<char>, CacheEntry<V>>,
) -> bool {
    (forall|k: Seq<char>| pre.contains_key(k) ==> #[trigger] post.contains_key(k))
        && (forall|k: Seq<char>| #[trigger] fresh_at(pre, k) ==> post.contains_key(k) && post[k]
        == pre[k])
}

/// Outside the identifiers in `ks` the two cache states agree exactly.
pub open spec fn agrees_outside<V>(
    pre: Map<Seq<char>, CacheEntry<V>>,
    post: Map<Seq<char>, CacheEntry<V>>,
    ks: Set<Seq<char>>,
) -> bool {
    forall|k: Seq<char>|
        !ks.contains(k) ==> ((pre.contains_key(k) <==> #[trigger] post.contains_key(k))
            && (pre.contains_key(k) ==> post[k] == pre[k]))
}

/// The entry for `k` is untouched: present on both sides with the same
/// value and mark, or absent on both.
pub open spec fn entry_unchanged<V>(
    pre: Map<Seq<char>, CacheEntry<V>>,
    post: Map<Seq<char>, CacheEntry<V>>,
    k: Seq<char>,
) -> bool {
    (pre.contains_key(k) <==> post.contains_key(k)) && (pre.contains_key(k) ==> post[k] == pre[k])
}

/// The same identifiers are tracked and each one's artifact is unchanged;
/// only staleness marks may differ.
pub open spec fn same_entries_values<V>(
    pre: Map<Seq<char>, CacheEntry<V>>,
    post: Map<Seq<char>, CacheEntry<V>>,
) -> bool {
    forall|k: Seq<char>|
        (pre.contains_key(k) <==> #[trigger] post.contains_key(k)) && (pre.contains_key(k)
            ==> post[k].value == pre[k].value)
}

/// Value retention composes across two steps.
pub proof fn lemma_values_trans<V>(
    a: Map<Seq<char>, CacheEntry<V>>,
    b: Map<Seq<char>, CacheEntry<V>>,
    c: Map<Seq<char>, CacheEntry<V>>,
)
    requires
        same_entries_values(a, b),
        same_entries_values(b, c),
    ensures
        same_entries_values(a, c),
{
}

/// Preservation of trusted entries composes across two steps.
pub proof fn lemma_preserves_trans<V>(
    a: Map<Seq<char>, CacheEntry<V>>,
    b: Map<Seq<char>, CacheEntry<V>>,
    c: Map<Seq<char>, CacheEntry<V>>,
)
    requires
        preserves_entries(a, b),
        preserves_entries(b, c),
    ensures
        preserves_entries(a, c),
{
    assert forall|k: Seq<char>| #[trigger] fresh_at(a, k) implies c.contains_key(k) && c[k]
        == a[k] by {
        assert(b.contains_key(k) && b[k] == a[k]);
        assert(fresh_at(b, k));
    }
    assert forall|k: Seq<char>| a.contains_key(k) implies #[trigger] c.contains_key(k) by {
        assert(b.contains_key(k));
    }
}

/// Agreement outside a scope composes across two steps.
pub proof fn lemma_agrees_trans<V>(
    a: Map<Seq<char>, CacheEntry<V>>,
    b: Map<Seq<char>, CacheEntry<V>>,
    c: Map<Seq<char>, CacheEntry<V>>,
    ks: Set<Seq<char>>,
)
    requires
        agrees_outside(a, b, ks),
        agrees_outside(b, c, ks),
    ensures
        agrees_outside(a, c, ks),
{
}

/// Agreement outside a smaller scope is agreement outside a larger one.
pub proof fn lemma_agrees_widen<V>(
    a: Map<Seq<char>, CacheEntry<V>>,
    b: Map<Seq<char>, CacheEntry<V>>,
    ks1: Set<Seq<char>>,
    ks2: Set<Seq<char>>,
)
    requires
        agrees_outside(a, b, ks1),
        ks1.subset_of(ks2),
    ensures
        agrees_outside(a, b, ks2),
{
}

/// The set of module identifiers in a list, by view.
pub open spec fn url_set(v: Vec<Url>) -> Set<Seq<char>> {
    v.deep_view().to_set()
}

/// Submaps compose across two steps.
pub proof fn lemma_submap_trans<K, V>(a: Map<K, V>, b: Map<K, V>, c: Map<K, V>)
    requires
        a.submap_of(b),
        b.submap_of(c),
    ensures
        a.submap_of(c),
{
    assert forall|k: K| #[trigger] a.dom().contains(k) implies c.dom().contains(k) && c[k]
        == a[k] by {
        assert(b.dom().contains(k) && b[k] == a[k]);
    }
}

/// Appending one identifier adds exactly that identifier to the set.
pub proof fn lemma_push_to_set(pre: Seq<Seq<char>>, post: Seq<Seq<char>>, x: Seq<char>)
    requires
        post == pre.push(x),
    ensures
        post.to_set() == pre.to_set().insert(x),
{
    assert forall|y: Seq<char>| post.to_set().contains(y) implies pre.to_set().insert(x).contains(
        y,
    ) by {
        let j = choose|j: int| 0 <= j < post.len() && post[j] == y;
        if j < pre.len() {
            assert(pre[j] == y);
        }
    }
    assert forall|y: Seq<char>| pre.to_set().insert(x).contains(y) implies post.to_set().contains(
        y,
    ) by {
        if pre.to_set().contains(y) {
            let j = choose|j: int| 0 <= j < pre.len() && pre[j] == y;
            assert(post[j] == y);
        } else {
            assert(post[post.len() - 1] == x);
        }
    }
    assert(post.to_set() =~= pre.to_set().insert(x));
}

/// A database tracking a set of source modules and every artifact derived
/// from them, one staged cache per artifact kind.
pub struct Database<S: FileSource, P: Pipeline> {
    /// The source provider of the modules (file system or in-memory).
    source: S,
    /// The stage functions of the compilation pipeline.
    pipeline: P,
    /// Dependency graph: each module's direct imports.
    pub deps: DependencyGraph,
    /// The source text of each module.
    files: Cache<String>,
    /// The concrete syntax tree of each module (once parsed).
    cst: Cache<Result<ParsedModule<P::Cst>, Error>>,
    /// The symbol table constructed during lowering.
    symbol_table: Cache<Arc<P::SymbolTable>>,
    /// The lowered, but not yet typechecked, syntax tree.
    ust: Cache<Result<Arc<P::Ust>, Error>>,
    /// The typechecked syntax tree of each module.
    ast: Cache<Result<Arc<P::Ast>, Error>>,
    /// The type information table constructed during typechecking.
    type_info_table: Cache<Arc<P::TypeInfoTable>>,
    /// Hover information for spans.
    info_by_id: Cache<P::InfoIndex>,
    /// Spans of top-level items.
    item_by_id: Cache<P::ItemIndex>,
}

impl<S: FileSource, P: Pipeline> Database<S, P> {
    // Views of the database's state, for contracts.

    pub closed spec fn files_map(&self) -> Map<Seq<char>, CacheEntry<String>> {
        self.files@
    }

    pub closed spec fn files_keys(&self) -> Seq<Seq<char>> {
        self.files.key_seq()
    }

    pub closed spec fn cst_map(&self) -> Map<Seq<char>, CacheEntry<Result<ParsedModule<P::Cst>, Error>>> {
        self.cst@
    }

    pub closed spec fn symbol_table_map(&self) -> Map<Seq<char>, CacheEntry<Arc<P::SymbolTable>>> {
        self.symbol_table@
    }

    pub closed spec fn ust_map(&self) -> Map<Seq<char>, CacheEntry<Result<Arc<P::Ust>, Error>>> {
        self.ust@
    }

    pub closed spec fn ast_map(&self) -> Map<Seq<char>, CacheEntry<Result<Arc<P::Ast>, Error>>> {
        self.ast@
    }

    pub closed spec fn type_info_map(&self) -> Map<Seq<char>, CacheEntry<Arc<P::TypeInfoTable>>> {
        self.type_info_table@
    }

    pub closed spec fn info_map(&self) -> Map<Seq<char>, CacheEntry<P::InfoIndex>> {
        self.info_by_id@
    }

    pub closed spec fn item_map(&self) -> Map<Seq<char>, CacheEntry<P::ItemIndex>> {
        self.item_by_id@
    }

    pub closed spec fn deps_map(&self) -> Map<Seq<char>, Seq<Seq<char>>> {
        self.deps@
    }

    pub closed spec fn src_modules(&self) -> Set<Seq<char>> {
        self.source.modules()
    }

    pub closed spec fn src_contents(&self) -> Map<Seq<char>, Seq<char>> {
        self.source.contents()
    }

    pub closed spec fn pipe(&self) -> P {
        self.pipeline
    }

    /// Well-formedness: every cache keys each module at most once, the
    /// graph does so as well and is recorded in reverse topological order
    /// (hence acyclic), and the source provider is consistent.
    pub closed spec fn wf(&self) -> bool {
        &&& self.files.wf()
        &&& self.cst.wf()
        &&& self.symbol_table.wf()
        &&& self.ust.wf()
        &&& self.ast.wf()
        &&& self.type_info_table.wf()
        &&& self.info_by_id.wf()
        &&& self.item_by_id.wf()
        &&& self.deps.wf()
        &&& self.deps.topo_ord()
        &&& self.source.inv()
        &&& self.cst_errors_attributed()
        &&& self.ust_errors_attributed()
        &&& self.ast_errors_attributed()
        &&& self.stage_chain()
    }

    /// Every failure cached at the lowering stage is a lowering failure.
    pub closed spec fn ust_errors_attributed(&self) -> bool {
        forall|k: Seq<char>|
            #[trigger] self.ust@.contains_key(k) ==> match self.ust@[k].value {
                Ok(_) => true,
                Err(e) => e@ is Lowering,
            }
    }

    /// Every failure cached at the typechecking stage is a typechecking
    /// failure.
    pub closed spec fn ast_errors_attributed(&self) -> bool {
        forall|k: Seq<char>|
            #[trigger] self.ast@.contains_key(k) ==> match self.ast@[k].value {
                Ok(_) => true,
                Err(e) => e@ is Type,
            }
    }

    /// A parse entry exists only over a source entry, and a trusted parse
    /// entry only over a trusted source entry: invalidation marks every
    /// stage of a module at once, and a recomputation refreshes the lower
    /// stage first.
    pub closed spec fn stage_chain(&self) -> bool {
        &&& forall|k: Seq<char>|
            #[trigger] self.cst@.contains_key(k) ==> self.files@.contains_key(k)
        &&& forall|k: Seq<char>| #[trigger] fresh_at(self.cst@, k) ==> fresh_at(self.files@, k)
        &&& forall|k: Seq<char>|
            #[trigger] fresh_at(self.symbol_table@, k) ==> fresh_at(self.cst@, k)
                && self.cst@[k].value is Ok
    }

    /// A trusted symbol table rests on a trusted, successful parse of the
    /// same module: invalidation marks every stage at once, and a symbol
    /// table is rebuilt only over a fresh parse.
    pub proof fn lemma_symbol_table_trusts_parse(&self)
        requires
            self.wf(),
        ensures
            forall|k: Seq<char>|
                #[trigger] fresh_at(self.symbol_table_map(), k) ==> fresh_at(self.cst_map(), k)
                    && self.cst_map()[k].value is Ok,
    {
    }

    /// Every failure cached at the parse stage is a parse failure carrying
    /// the identifier of the module it is cached under.
    pub proof fn lemma_parse_failures_attributed(&self)
        requires
            self.wf(),
        ensures
            forall|k: Seq<char>|
                #[trigger] self.cst_map().contains_key(k) ==> match self.cst_map()[k].value {
                    Ok(_) => true,
                    Err(e) => e@ matches ErrorView::Parser { uri, .. } && uri == k,
                },
    {
    }

    /// Every failure cached at the parse stage is a parse failure
    /// attributed to the module it is cached under.
    pub closed spec fn cst_errors_attributed(&self) -> bool {
        forall|k: Seq<char>|
            #[trigger] self.cst@.contains_key(k) ==> match self.cst@[k].value {
                Ok(_) => true,
                Err(e) => e@ matches ErrorView::Parser { uri, .. } && uri == k,
            }
    }

    /// The published dependency graph never contains an import cycle.
    pub proof fn lemma_deps_acyclic(&self)
        requires
            self.wf(),
        ensures
            crate::dependency_graph::acyclic(self.deps_map()),
    {
        self.deps.lemma_topo_acyclic();
    }

    // Frame predicates: which parts of the state a call leaves alone.

    pub open spec fn same_source(pre: Self, post: Self) -> bool {
        post.src_modules() == pre.src_modules() && post.src_contents() == pre.src_contents()
    }

    pub open spec fn same_deps(pre: Self, post: Self) -> bool {
        post.deps_map() == pre.deps_map()
    }

    pub open spec fn same_upper_stages(pre: Self, post: Self) -> bool {
        post.ast_map() == pre.ast_map() && post.type_info_map() == pre.type_info_map()
            && post.info_map() == pre.info_map() && post.item_map() == pre.item_map()
    }

    // Creation.

    /// Creates a database over the given source provider and pipeline,
    /// with every cache empty.
    pub fn from_source(source: S, pipeline: P) -> (db: Database<S, P>)
        requires
            source.inv(),
        ensures
            db.wf(),
            db.src_modules() == source.modules(),
            db.src_contents() == source.contents(),
            db.pipe() == pipeline,
            db.files_map() == Map::<Seq<char>, CacheEntry<String>>::empty(),
            db.cst_map() == Map::<Seq<char>, CacheEntry<Result<ParsedModule<P::Cst>, Error>>>::empty(),
            db.symbol_table_map() == Map::<Seq<char>, CacheEntry<Arc<P::SymbolTable>>>::empty(),
            db.ust_map() == Map::<Seq<char>, CacheEntry<Result<Arc<P::Ust>, Error>>>::empty(),
            db.ast_map() == Map::<Seq<char>, CacheEntry<Result<Arc<P::Ast>, Error>>>::empty(),
            db.type_info_map() == Map::<Seq<char>, CacheEntry<Arc<P::TypeInfoTable>>>::empty(),
            db.info_map() == Map::<Seq<char>, CacheEntry<P::InfoIndex>>::empty(),
            db.item_map() == Map::<Seq<char>, CacheEntry<P::ItemIndex>>::empty(),
            db.deps_map() == Map::<Seq<char>, Seq<Seq<char>>>::empty(),
    {
        Database {
            source,
            pipeline,
            deps: DependencyGraph::new(),
            files: Cache::new(),
            cst: Cache::new(),
            symbol_table: Cache::new(),
            ust: Cache::new(),
            ast: Cache::new(),
            type_info_table: Cache::new(),
            info_by_id: Cache::new(),
            item_by_id: Cache::new(),
        }
    }

    /// Access to the source provider.
    pub fn file_source(&self) -> (r: &S)
        ensures
            r.modules() == self.src_modules(),
            r.contents() == self.src_contents(),
    {
        &self.source
    }

    // Core API: source text.

    /// The source text of `uri`: the trusted cache entry, or freshly read
    /// from the source provider.
    pub fn source(&mut self, uri: &Url) -> (r: Result<String, Error>)
        requires
            old(self).wf(),
        ensures
            final(self).wf(),
            fresh_at(old(self).files_map(), uri@) ==> *final(self) == *old(self),
            r matches Ok(text) ==> fresh_at(final(self).files_map(), uri@) && final(self).files_map()[uri@].value == text,
            r is Ok <==> (fresh_at(old(self).files_map(), uri@) || old(self).src_modules()
                .contains(uri@)),
            r matches Ok(text) ==> (!fresh_at(old(self).files_map(), uri@) ==> text@ == old(self).src_contents()[uri@]),
            r is Err ==> final(self).files_map() == old(self).files_map() && final(self).files_keys() == old(self).files_keys(),
            r matches Err(e) ==> (e@ is NotFound || e@ is Io),
            forall|k: Seq<char>|
                #[trigger] final(self).files_map().contains_key(k) && !old(self).files_map().contains_key(k) ==> old(self).src_modules().contains(k),
            preserves_entries(old(self).files_map(), final(self).files_map()),
            agrees_outside(old(self).files_map(), final(self).files_map(), set![uri@]),
            final(self).files_keys() == if old(self).files_map().contains_key(uri@) || r is Err {
                old(self).files_keys()
            } else {
                old(self).files_keys().push(uri@)
            },
            final(self).cst_map() == old(self).cst_map(),
            final(self).symbol_table_map() == old(self).symbol_table_map(),
            final(self).ust_map() == old(self).ust_map(),
            Self::same_upper_stages(*old(self), *final(self)),
            Self::same_deps(*old(self), *final(self)),
            Self::same_source(*old(self), *final(self)),
            final(self).pipe() == old(self).pipe(),
    {
        let hit = match self.files.get_unless_stale(uri) {
            Some(text) => Some(text.clone()),
            None => None,
        };
        match hit {
            Some(text) => Ok(text),
            None => self.recompute_source(uri),
        }
    }

    fn recompute_source(&mut self, uri: &Url) -> (r: Result<String, Error>)
        requires
            old(self).wf(),
            !fresh_at(old(self).files_map(), uri@),
        ensures
            final(self).wf(),
            r matches Ok(text) ==> fresh_at(final(self).files_map(), uri@) && final(self).files_map()[uri@].value == text && text@ == old(self).src_contents()[uri@],
            r is Ok <==> old(self).src_modules().contains(uri@),
            r is Err ==> final(self).files_map() == old(self).files_map() && final(self).files_keys() == old(self).files_keys(),
            r matches Err(e) ==> (e@ is NotFound || e@ is Io),
            forall|k: Seq<char>|
                #[trigger] final(self).files_map().contains_key(k) && !old(self).files_map().contains_key(k) ==> old(self).src_modules().contains(k),
            preserves_entries(old(self).files_map(), final(self).files_map()),
            agrees_outside(old(self).files_map(), final(self).files_map(), set![uri@]),
            final(self).files_keys() == if old(self).files_map().contains_key(uri@) || r is Err {
                old(self).files_keys()
            } else {
                old(self).files_keys().push(uri@)
            },
            final(self).cst_map() == old(self).cst_map(),
            final(self).symbol_table_map() == old(self).symbol_table_map(),
            final(self).ust_map() == old(self).ust_map(),
            Self::same_upper_stages(*old(self), *final(self)),
            Self::same_deps(*old(self), *final(self)),
            Self::same_source(*old(self), *final(self)),
            final(self).pipe() == old(self).pipe(),
    {
        proof {
            self.source.lemma_catalogue();
        }
        match self.source.read_to_string(uri) {
            Ok(text) => {
                let stored = text.clone();
                self.files.insert(uri.clone(), stored);
                Ok(text)
            },
            Err(SourceError::NotFound { uri }) => Err(Error::NotFound { uri }),
            Err(SourceError::Io { uri, message }) => Err(Error::Io { uri, message }),
        }
    }

    // Core API: concrete syntax tree.

    /// The concrete syntax tree of `uri`: the trusted cache entry, or the
    /// module's source freshly parsed.  A parse failure is cached like a
    /// success, so that repeated demands return the same error without
    /// parsing again.
    pub fn cst(&mut self, uri: &Url) -> (r: Result<Arc<P::Cst>, Error>)
        requires
            old(self).wf(),
        ensures
            final(self).wf(),
            fresh_at(old(self).cst_map(), uri@) ==> *final(self) == *old(self)
                && cst_result_matches::<P>(r, old(self).cst_map()[uri@].value),
            r matches Ok(t) ==> fresh_at(final(self).cst_map(), uri@)
                && (final(self).cst_map()[uri@].value matches Ok(pm) && pm.tree == t),
            !fresh_at(old(self).cst_map(), uri@) && r is Ok ==> fresh_at(
                final(self).files_map(),
                uri@,
            ),
            r matches Err(e) ==> (fresh_at(final(self).cst_map(), uri@) && (final(self).cst_map()[uri@].value matches Err(f) && f@ == e@)) || (final(self).cst_map() == old(self).cst_map() && !old(self).src_modules().contains(uri@) && !fresh_at(
                old(self).files_map(),
                uri@,
            )),
            preserves_entries(old(self).files_map(), final(self).files_map()),
            agrees_outside(old(self).files_map(), final(self).files_map(), set![uri@]),
            preserves_entries(old(self).cst_map(), final(self).cst_map()),
            agrees_outside(old(self).cst_map(), final(self).cst_map(), set![uri@]),
            final(self).files_keys() == old(self).files_keys() || final(self).files_keys() == old(self).files_keys().push(uri@),
            forall|k: Seq<char>|
                #[trigger] final(self).files_map().contains_key(k) && !old(self).files_map().contains_key(k) ==> old(self).src_modules().contains(k),
            final(self).cst_map().contains_key(uri@) && !old(self).cst_map().contains_key(uri@)
                ==> final(self).files_map().contains_key(uri@),
            r matches Err(e) ==> (e@ is Parser || e@ is NotFound || e@ is Io),
            r matches Err(e) ==> (e@ is Parser ==> final(self).parse_failure_at(uri@, e@)),
            final(self).symbol_table_map() == old(self).symbol_table_map(),
            final(self).ust_map() == old(self).ust_map(),
            Self::same_upper_stages(*old(self), *final(self)),
            Self::same_deps(*old(self), *final(self)),
            Self::same_source(*old(self), *final(self)),
    {
        let hit = match self.cst.get_unless_stale(uri) {
            Some(res) => match res {
                Ok(pm) => Some(Ok(arc_clone(&pm.tree))),
                Err(e) => Some(Err(e.duplicate())),
            },
            None => None,
        };
        match hit {
            Some(res) => res,
            None => self.recompute_cst(uri),
        }
    }

    fn recompute_cst(&mut self, uri: &Url) -> (r: Result<Arc<P::Cst>, Error>)
        requires
            old(self).wf(),
            !fresh_at(old(self).cst_map(), uri@),
        ensures
            final(self).wf(),
            r matches Ok(t) ==> fresh_at(final(self).cst_map(), uri@)
                && (final(self).cst_map()[uri@].value matches Ok(pm) && pm.tree == t),
            !fresh_at(old(self).cst_map(), uri@) && r is Ok ==> fresh_at(
                final(self).files_map(),
                uri@,
            ),
            r matches Err(e) ==> (fresh_at(final(self).cst_map(), uri@) && (final(self).cst_map()[uri@].value matches Err(f) && f@ == e@)) || (final(self).cst_map() == old(self).cst_map() && !old(self).src_modules().contains(uri@) && !fresh_at(
                old(self).files_map(),
                uri@,
            )),
            preserves_entries(old(self).files_map(), final(self).files_map()),
            agrees_outside(old(self).files_map(), final(self).files_map(), set![uri@]),
            preserves_entries(old(self).cst_map(), final(self).cst_map()),
            agrees_outside(old(self).cst_map(), final(self).cst_map(), set![uri@]),
            final(self).files_keys() == old(self).files_keys() || final(self).files_keys() == old(self).files_keys().push(uri@),
            forall|k: Seq<char>|
                #[trigger] final(self).files_map().contains_key(k) && !old(self).files_map().contains_key(k) ==> old(self).src_modules().contains(k),
            final(self).cst_map().contains_key(uri@) && !old(self).cst_map().contains_key(uri@)
                ==> final(self).files_map().contains_key(uri@),
            r matches Err(e) ==> (e@ is Parser || e@ is NotFound || e@ is Io),
            r matches Err(e) ==> (e@ is Parser ==> final(self).parse_failure_at(uri@, e@)),
            final(self).symbol_table_map() == old(self).symbol_table_map(),
            final(self).ust_map() == old(self).ust_map(),
            Self::same_upper_stages(*old(self), *final(self)),
            Self::same_deps(*old(self), *final(self)),
            Self::same_source(*old(self), *final(self)),
    {
        let text = match self.source(uri) {
            Ok(text) => text,
            Err(e) => {
                return Err(e);
            },
        };
        match self.pipeline.parse(uri, &text) {
            Ok(pm) => {
                let tree = arc_clone(&pm.tree);
                self.cst.insert(uri.clone(), Ok(pm));
                proof {
                    self.lemma_stage_chain_restored(*old(self), uri@);
                }
                Ok(tree)
            },
            Err(pe) => {
                let wrapped = Error::Parser { uri: uri.clone(), message: pe.message, span: pe.span };
                let handed = wrapped.duplicate();
                self.cst.insert(uri.clone(), Err(wrapped));
                proof {
                    self.lemma_stage_chain_restored(*old(self), uri@);
                }
                Err(handed)
            },
        }
    }

    /// After a parse entry for `uri` is written over a trusted source
    /// entry, the stage chain holds again.
    proof fn lemma_stage_chain_restored(&self, pre: Self, uri: Seq<char>)
        requires
            pre.stage_chain(),
            preserves_entries(pre.files@, self.files@),
            fresh_at(self.files@, uri),
            !fresh_at(pre.cst@, uri),
            self.symbol_table@ == pre.symbol_table@,
            forall|k: Seq<char>|
                k != uri ==> ((pre.cst@.contains_key(k) <==> #[trigger] self.cst@.contains_key(k))
                    && (pre.cst@.contains_key(k) ==> self.cst@[k] == pre.cst@[k])),
        ensures
            self.stage_chain(),
    {
        assert forall|k: Seq<char>| #[trigger] fresh_at(self.symbol_table@, k) implies fresh_at(
            self.cst@,
            k,
        ) && self.cst@[k].value is Ok by {
            assert(fresh_at(pre.symbol_table@, k));
            assert(fresh_at(pre.cst@, k));
            assert(k != uri);
        }
        assert forall|k: Seq<char>| #[trigger] self.cst@.contains_key(k) implies self.files@
            .contains_key(k) by {
            if k != uri {
                assert(pre.cst@.contains_key(k));
                assert(pre.files@.contains_key(k));
            }
        }
        assert forall|k: Seq<char>| #[trigger] fresh_at(self.cst@, k) implies fresh_at(
            self.files@,
            k,
        ) by {
            if k != uri {
                assert(fresh_at(pre.cst@, k));
                assert(fresh_at(pre.files@, k));
            }
        }
    }

    // Core API: symbol table.

    /// The symbol table of `uri`: the trusted cache entry, or freshly
    /// built from the module's concrete syntax tree.  Only successes are
    /// cached at this stage; failures are cached where they arose.
    pub fn symbol_table(&mut self, uri: &Url) -> (r: Result<Arc<P::SymbolTable>, Error>)
        requires
            old(self).wf(),
        ensures
            final(self).wf(),
            fresh_at(old(self).symbol_table_map(), uri@) ==> *final(self) == *old(self) && (
            r matches Ok(t) && t == old(self).symbol_table_map()[uri@].value),
            r matches Ok(t) ==> fresh_at(final(self).symbol_table_map(), uri@) && final(self).symbol_table_map()[uri@].value == t,
            r is Err ==> final(self).symbol_table_map() == old(self).symbol_table_map(),
            !fresh_at(old(self).symbol_table_map(), uri@) && r is Ok ==> fresh_at(
                final(self).cst_map(),
                uri@,
            ) && final(self).cst_map()[uri@].value is Ok,
            preserves_entries(old(self).files_map(), final(self).files_map()),
            agrees_outside(old(self).files_map(), final(self).files_map(), set![uri@]),
            preserves_entries(old(self).cst_map(), final(self).cst_map()),
            agrees_outside(old(self).cst_map(), final(self).cst_map(), set![uri@]),
            preserves_entries(old(self).symbol_table_map(), final(self).symbol_table_map()),
            agrees_outside(
                old(self).symbol_table_map(),
                final(self).symbol_table_map(),
                set![uri@],
            ),
            final(self).files_keys() == old(self).files_keys() || final(self).files_keys() == old(self).files_keys().push(uri@),
            r matches Err(e) ==> (e@ is Parser || e@ is NotFound || e@ is Io || e@ is Lowering),
            r matches Err(e) ==> (e@ is Parser ==> final(self).parse_failure_at(uri@, e@)),
            final(self).ust_map() == old(self).ust_map(),
            Self::same_upper_stages(*old(self), *final(self)),
            Self::same_deps(*old(self), *final(self)),
            Self::same_source(*old(self), *final(self)),
    {
        let hit = match self.symbol_table.get_unless_stale(uri) {
            Some(table) => Some(arc_clone(table)),
            None => None,
        };
        match hit {
            Some(table) => Ok(table),
            None => self.recompute_symbol_table(uri),
        }
    }

    fn recompute_symbol_table(&mut self, uri: &Url) -> (r: Result<Arc<P::SymbolTable>, Error>)
        requires
            old(self).wf(),
            !fresh_at(old(self).symbol_table_map(), uri@),
        ensures
            final(self).wf(),
            r matches Ok(t) ==> fresh_at(final(self).symbol_table_map(), uri@) && final(self).symbol_table_map()[uri@].value == t,
            r is Err ==> final(self).symbol_table_map() == old(self).symbol_table_map(),
            !fresh_at(old(self).symbol_table_map(), uri@) && r is Ok ==> fresh_at(
                final(self).cst_map(),
                uri@,
            ) && final(self).cst_map()[uri@].value is Ok,
            preserves_entries(old(self).files_map(), final(self).files_map()),
            agrees_outside(old(self).files_map(), final(self).files_map(), set![uri@]),
            preserves_entries(old(self).cst_map(), final(self).cst_map()),
            agrees_outside(old(self).cst_map(), final(self).cst_map(), set![uri@]),
            preserves_entries(old(self).symbol_table_map(), final(self).symbol_table_map()),
            agrees_outside(
                old(self).symbol_table_map(),
                final(self).symbol_table_map(),
                set![uri@],
            ),
            final(self).files_keys() == old(self).files_keys() || final(self).files_keys() == old(self).files_keys().push(uri@),
            r matches Err(e) ==> (e@ is Parser || e@ is NotFound || e@ is Io || e@ is Lowering),
            r matches Err(e) ==> (e@ is Parser ==> final(self).parse_failure_at(uri@, e@)),
            final(self).ust_map() == old(self).ust_map(),
            Self::same_upper_stages(*old(self), *final(self)),
            Self::same_deps(*old(self), *final(self)),
            Self::same_source(*old(self), *final(self)),
    {
        let tree = match self.cst(uri) {
            Ok(tree) => tree,
            Err(e) => {
                return Err(e);
            },
        };
        match self.pipeline.build_symbol_table(uri, &tree) {
            Ok(table) => {
                let table = Arc::new(table);
                let handed = arc_clone(&table);
                self.symbol_table.insert(uri.clone(), table);
                proof {
                    assert forall|k: Seq<char>| #[trigger] fresh_at(
                        self.symbol_table@,
                        k,
                    ) implies fresh_at(self.cst@, k) && self.cst@[k].value is Ok by {
                        if k != uri@ {
                            assert(fresh_at(old(self).symbol_table@, k));
                            assert(fresh_at(old(self).cst@, k));
                        }
                    }
                }
                Ok(handed)
            },
            Err(le) => Err(Error::Lowering { message: le.message, span: le.span }),
        }
    }
}

impl<P: Pipeline> Database<InMemorySource, P> {
    /// Creates a database that only keeps modules in memory.
    pub fn in_memory(pipeline: P) -> (db: Database<InMemorySource, P>)
        ensures
            db.wf(),
            db.src_modules() == Set::<Seq<char>>::empty(),
            db.pipe() == pipeline,
            db.files_map() == Map::<Seq<char>, CacheEntry<String>>::empty(),
            db.ast_map() == Map::<Seq<char>, CacheEntry<Result<Arc<P::Ast>, Error>>>::empty(),
            db.deps_map() == Map::<Seq<char>, Seq<Seq<char>>>::empty(),
    {
        Database::from_source(InMemorySource::new(), pipeline)
    }
}

/// Invalidation cascades: when module `a` directly imports module `b`,
/// the invalidation of `b` leaves `a`'s cached artifact distrusted as
/// well, even though only `b` was invalidated.  The hypothesis is what
/// `Database::invalidate` ensures of every cache for every reverse
/// dependent of `b`.
pub proof fn lemma_invalidation_cascades<V>(
    deps: Map<Seq<char>, Seq<Seq<char>>>,
    cache: Map<Seq<char>, CacheEntry<V>>,
    a: Seq<char>,
    b: Seq<char>,
)
    requires
        crate::dependency_graph::step(deps, a, b),
        forall|m: Seq<char>|
            crate::dependency_graph::depends_on(deps, m, b) ==> stale_or_absent(cache, m),
    ensures
        stale_or_absent(cache, a),
{
    crate::dependency_graph::lemma_step_is_dependency(deps, a, b);
}

/// How a served syntax-tree result relates to a cached parse outcome: same
/// tree on success, same structured error on failure.
pub open spec fn cst_result_matches<P: Pipeline>(
    r: Result<Arc<P::Cst>, Error>,
    c: Result<ParsedModule<P::Cst>, Error>,
) -> bool {
    match (r, c) {
        (Ok(t), Ok(pm)) => t == pm.tree,
        (Err(e), Err(f)) => e@ == f@,
        _ => false,
    }
}

/// How a served shared artifact relates to a cached outcome: same handle
/// on success, same structured error on failure.
pub open spec fn arc_result_matches<T>(r: Result<Arc<T>, Error>, c: Result<Arc<T>, Error>) -> bool {
    match (r, c) {
        (Ok(t), Ok(v)) => t == v,
        (Err(e), Err(f)) => e@ == f@,
        _ => false,
    }
}

impl<S: FileSource, P: Pipeline> Database<S, P> {
    /// Everything the lowering of `k` consumes is already cached and
    /// trusted: the parse, the module's own symbol table, and the symbol
    /// table of every recorded direct dependency.
    pub open spec fn ust_inputs_fresh(self, k: Seq<char>) -> bool {
        &&& self.deps_map().contains_key(k)
        &&& fresh_at(self.cst_map(), k)
        &&& self.cst_map()[k].value is Ok
        &&& fresh_at(self.symbol_table_map(), k)
        &&& forall|d: Seq<char>|
            self.deps_map()[k].contains(d) ==> fresh_at(self.symbol_table_map(), d)
    }

    /// Every tracked module's parse is cached, trusted and successful,
    /// every declared import resolves, and it resolves to a tracked
    /// module.  A graph rebuild over such a state reads nothing, parses
    /// nothing, and can fail only by finding an import cycle.
    pub open spec fn resolved_closed(self) -> bool {
        forall|k: Seq<char>|
            #[trigger] self.files_map().contains_key(k) ==> {
                &&& fresh_at(self.cst_map(), k)
                &&& self.cst_map()[k].value is Ok
                &&& forall|j: int|
                    0 <= j < self.cst_imports(k).len() ==> (#[trigger] join_of(
                        k,
                        self.cst_imports(k)[j],
                    ) matches Some(d) && self.files_map().contains_key(d))
            }
    }

    /// Everything the typechecking of `k` consumes is already cached and
    /// trusted: the lowered tree and the type information tables of the
    /// module and of its recorded direct dependencies.
    pub open spec fn ast_inputs_fresh(self, k: Seq<char>) -> bool {
        &&& fresh_at(self.ust_map(), k)
        &&& self.ust_map()[k].value is Ok
        &&& fresh_at(self.type_info_map(), k)
        &&& self.deps_map().contains_key(k) ==> forall|d: Seq<char>|
            self.deps_map()[k].contains(d) ==> fresh_at(self.type_info_map(), d)
    }

    /// The cached parse of `k` is a trusted failure whose structured form
    /// is exactly `e`.
    pub open spec fn parse_failure_at(self, k: Seq<char>, e: ErrorView) -> bool {
        fresh_at(self.cst_map(), k) && (self.cst_map()[k].value matches Err(f) && f@ == e)
    }

    /// Every recorded direct dependency of `k` already has a trusted,
    /// successful checked tree.
    pub open spec fn imports_ready(self, k: Seq<char>) -> bool {
        self.deps_map().contains_key(k) ==> forall|d: Seq<char>|
            self.deps_map()[k].contains(d) ==> fresh_at(self.ast_map(), d)
                && self.ast_map()[d].value is Ok
    }

    /// The identifiers a recomputation for `k` may touch: `k` itself and
    /// its recorded direct dependencies.
    pub open spec fn dep_scope(self, k: Seq<char>) -> Set<Seq<char>> {
        if self.deps_map().contains_key(k) {
            self.deps_map()[k].to_set().insert(k)
        } else {
            set![k]
        }
    }

    // Core API: lowered syntax tree.

    /// The lowered syntax tree of `uri`: the trusted cache entry, or the
    /// module freshly lowered against the symbol tables of itself and its
    /// direct dependencies.  A lowering failure is cached like a success.
    pub fn ust(&mut self, uri: &Url) -> (r: Result<Arc<P::Ust>, Error>)
        requires
            old(self).wf(),
        ensures
            final(self).wf(),
            fresh_at(old(self).ust_map(), uri@) ==> *final(self) == *old(self)
                && arc_result_matches(r, old(self).ust_map()[uri@].value),
            r matches Ok(t) ==> fresh_at(final(self).ust_map(), uri@)
                && (final(self).ust_map()[uri@].value matches Ok(v) && v == t),
            !fresh_at(old(self).ust_map(), uri@) && r is Ok ==> old(self).deps_map()
                .contains_key(uri@) && fresh_at(final(self).cst_map(), uri@) && final(self).cst_map()[uri@].value is Ok && fresh_at(final(self).symbol_table_map(), uri@) && (
            forall|d: Seq<char>|
                old(self).deps_map()[uri@].contains(d) ==> fresh_at(
                    final(self).symbol_table_map(),
                    d,
                )),
            preserves_entries(old(self).files_map(), final(self).files_map()),
            agrees_outside(old(self).files_map(), final(self).files_map(), old(self).dep_scope(uri@)),
            preserves_entries(old(self).cst_map(), final(self).cst_map()),
            agrees_outside(old(self).cst_map(), final(self).cst_map(), old(self).dep_scope(uri@)),
            preserves_entries(old(self).symbol_table_map(), final(self).symbol_table_map()),
            agrees_outside(
                old(self).symbol_table_map(),
                final(self).symbol_table_map(),
                old(self).dep_scope(uri@),
            ),
            preserves_entries(old(self).ust_map(), final(self).ust_map()),
            agrees_outside(old(self).ust_map(), final(self).ust_map(), set![uri@]),
            r matches Err(e) ==> (e@ is Parser || e@ is NotFound || e@ is Io || e@ is Lowering
                || e@ is Impossible),
            // failures of the stages below are never written to this cache
            r matches Err(e) ==> ((e@ is Parser || e@ is NotFound || e@ is Io || e@ is Impossible)
                ==> final(self).ust_map() == old(self).ust_map()),
            // the internal-invariant failure comes exactly from a missing
            // graph entry after a successful parse
            r matches Err(e) ==> (e@ is Impossible <==> (!old(self).deps_map().contains_key(uri@)
                && !fresh_at(old(self).ust_map(), uri@) && fresh_at(final(self).cst_map(), uri@)
                && final(self).cst_map()[uri@].value is Ok)),
            // with every input already trusted, the lowering stage runs and
            // its outcome, success or failure, stands in the cache
            Self::ust_inputs_fresh(*old(self), uri@) ==> fresh_at(final(self).ust_map(), uri@)
                && arc_result_matches(r, final(self).ust_map()[uri@].value),
            // a surfaced parse failure is the cached one of the module
            // itself or of one of its recorded direct dependencies
            r matches Err(e) ==> (e@ is Parser ==> exists|k: Seq<char>|
                #[trigger] final(self).parse_failure_at(k, e@) && (k == uri@ || (old(self).deps_map().contains_key(uri@) && old(self).deps_map()[uri@].contains(k)))),
            Self::same_upper_stages(*old(self), *final(self)),
            Self::same_deps(*old(self), *final(self)),
            Self::same_source(*old(self), *final(self)),
    {
        let hit = match self.ust.get_unless_stale(uri) {
            Some(res) => match res {
                Ok(t) => Some(Ok(arc_clone(t))),
                Err(e) => Some(Err(e.duplicate())),
            },
            None => None,
        };
        match hit {
            Some(res) => res,
            None => self.recompute_ust(uri),
        }
    }

    /// Lowers `uri` anew, unconditionally, and caches the outcome.  The
    /// symbol tables handed to the lowering stage are those of the module
    /// itself and of its direct dependencies, in import-declaration order.
    pub fn recompute_ust(&mut self, uri: &Url) -> (r: Result<Arc<P::Ust>, Error>)
        requires
            old(self).wf(),
        ensures
            final(self).wf(),
            r matches Ok(t) ==> fresh_at(final(self).ust_map(), uri@)
                && (final(self).ust_map()[uri@].value matches Ok(v) && v == t),
            r is Ok ==> old(self).deps_map().contains_key(uri@) && fresh_at(
                final(self).cst_map(),
                uri@,
            ) && final(self).cst_map()[uri@].value is Ok && fresh_at(
                final(self).symbol_table_map(),
                uri@,
            ) && (forall|d: Seq<char>|
                old(self).deps_map()[uri@].contains(d) ==> fresh_at(
                    final(self).symbol_table_map(),
                    d,
                )),
            r matches Err(e) ==> (fresh_at(final(self).ust_map(), uri@) && (final(self).ust_map()[uri@].value matches Err(f) && f@ == e@)) || final(self).ust_map() == old(self).ust_map(),
            preserves_entries(old(self).files_map(), final(self).files_map()),
            agrees_outside(old(self).files_map(), final(self).files_map(), old(self).dep_scope(uri@)),
            preserves_entries(old(self).cst_map(), final(self).cst_map()),
            agrees_outside(old(self).cst_map(), final(self).cst_map(), old(self).dep_scope(uri@)),
            preserves_entries(old(self).symbol_table_map(), final(self).symbol_table_map()),
            agrees_outside(
                old(self).symbol_table_map(),
                final(self).symbol_table_map(),
                old(self).dep_scope(uri@),
            ),
            forall|k: Seq<char>|
                k != uri@ && fresh_at(old(self).ust_map(), k) ==> fresh_at(
                    final(self).ust_map(),
                    k,
                ) && final(self).ust_map()[k] == old(self).ust_map()[k],
            forall|k: Seq<char>|
                old(self).ust_map().contains_key(k) ==> final(self).ust_map().contains_key(k),
            agrees_outside(old(self).ust_map(), final(self).ust_map(), set![uri@]),
            r matches Err(e) ==> (e@ is Parser || e@ is NotFound || e@ is Io || e@ is Lowering
                || e@ is Impossible),
            // failures of the stages below are never written to this cache
            r matches Err(e) ==> ((e@ is Parser || e@ is NotFound || e@ is Io || e@ is Impossible)
                ==> final(self).ust_map() == old(self).ust_map()),
            // the internal-invariant failure comes exactly from a missing
            // graph entry after a successful parse
            r matches Err(e) ==> (e@ is Impossible <==> (!old(self).deps_map().contains_key(uri@)
                && fresh_at(final(self).cst_map(), uri@) && final(self).cst_map()[uri@].value
                is Ok)),
            // with every input already trusted, the lowering stage runs and
            // its outcome, success or failure, stands in the cache
            Self::ust_inputs_fresh(*old(self), uri@) ==> fresh_at(final(self).ust_map(), uri@)
                && arc_result_matches(r, final(self).ust_map()[uri@].value),
            // a surfaced parse failure is the cached one of the module
            // itself or of one of its recorded direct dependencies
            r matches Err(e) ==> (e@ is Parser ==> exists|k: Seq<char>|
                #[trigger] final(self).parse_failure_at(k, e@) && (k == uri@ || (old(self).deps_map().contains_key(uri@) && old(self).deps_map()[uri@].contains(k)))),
            Self::same_upper_stages(*old(self), *final(self)),
            Self::same_deps(*old(self), *final(self)),
            Self::same_source(*old(self), *final(self)),
    {
        let ghost scope = old(self).dep_scope(uri@);
        proof {
            assert(set![uri@].subset_of(scope));
        }
        let tree = match self.cst(uri) {
            Ok(t) => t,
            Err(e) => {
                proof {
                    if Self::ust_inputs_fresh(*old(self), uri@) {
                        assert(fresh_at(old(self).cst_map(), uri@));
                        assert(false);
                    }
                    lemma_agrees_widen(old(self).files_map(), self.files_map(), set![uri@], scope);
                    lemma_agrees_widen(old(self).cst_map(), self.cst_map(), set![uri@], scope);
                }
                return Err(e);
            },
        };
        proof {
            lemma_agrees_widen(old(self).files_map(), self.files_map(), set![uri@], scope);
            lemma_agrees_widen(old(self).cst_map(), self.cst_map(), set![uri@], scope);
        }
        let deps = match self.deps.get(uri) {
            Some(d) => clone_urls(d),
            None => {
                let mut message: String = <String as StringExecFns>::from_str(
                    "no dependency entry for ",
                );
                message.append(uri.as_str());
                return Err(Error::Impossible { message });
            },
        };
        // The symbol tables of the module itself and of all its direct
        // dependencies.
        let mut symbol_tables: Vec<(Url, Arc<P::SymbolTable>)> = Vec::new();
        let ghost fm0 = self.files_map();
        let ghost cm0 = self.cst_map();
        let ghost fm1 = *self;
        let own = match self.symbol_table(uri) {
            Ok(t) => t,
            Err(e) => {
                proof {
                    if Self::ust_inputs_fresh(*old(self), uri@) {
                        assert(fresh_at(old(self).symbol_table_map(), uri@));
                        assert(fresh_at(fm1.symbol_table_map(), uri@));
                        assert(false);
                    }
                    lemma_agrees_widen(fm0, self.files_map(), set![uri@], scope);
                    lemma_agrees_trans(old(self).files_map(), fm0, self.files_map(), scope);
                    lemma_agrees_widen(cm0, self.cst_map(), set![uri@], scope);
                    lemma_agrees_trans(old(self).cst_map(), cm0, self.cst_map(), scope);
                    lemma_agrees_widen(
                        old(self).symbol_table_map(),
                        self.symbol_table_map(),
                        set![uri@],
                        scope,
                    );
                    lemma_preserves_trans(old(self).files_map(), fm0, self.files_map());
                    lemma_preserves_trans(old(self).cst_map(), cm0, self.cst_map());
                }
                return Err(e);
            },
        };
        proof {
            lemma_agrees_widen(fm0, self.files_map(), set![uri@], scope);
            lemma_agrees_trans(old(self).files_map(), fm0, self.files_map(), scope);
            lemma_agrees_widen(cm0, self.cst_map(), set![uri@], scope);
            lemma_agrees_trans(old(self).cst_map(), cm0, self.cst_map(), scope);
            lemma_agrees_widen(
                old(self).symbol_table_map(),
                self.symbol_table_map(),
                set![uri@],
                scope,
            );
            lemma_preserves_trans(old(self).files_map(), fm0, self.files_map());
            lemma_preserves_trans(old(self).cst_map(), cm0, self.cst_map());
        }
        symbol_tables.push((uri.clone(), own));
        let mut i: usize = 0;
        while i < deps.len()
            invariant
                self.wf(),
                i <= deps@.len(),
                deps.deep_view() == old(self).deps_map()[uri@],
                old(self).deps_map().contains_key(uri@),
                scope == old(self).dep_scope(uri@),
                fresh_at(self.cst_map(), uri@),
                self.cst_map()[uri@].value is Ok,
                fresh_at(self.symbol_table_map(), uri@),
                forall|j: int|
                    0 <= j < i ==> fresh_at(
                        self.symbol_table_map(),
                        #[trigger] deps.deep_view()[j],
                    ),
                preserves_entries(old(self).files_map(), self.files_map()),
                agrees_outside(old(self).files_map(), self.files_map(), scope),
                preserves_entries(old(self).cst_map(), self.cst_map()),
                agrees_outside(old(self).cst_map(), self.cst_map(), scope),
                preserves_entries(old(self).symbol_table_map(), self.symbol_table_map()),
                agrees_outside(old(self).symbol_table_map(), self.symbol_table_map(), scope),
                self.ust_map() == old(self).ust_map(),
                Self::same_upper_stages(*old(self), *self),
                Self::same_deps(*old(self), *self),
                Self::same_source(*old(self), *self),
            decreases deps@.len() - i,
        {
            let dep = &deps[i];
            proof {
                assert(deps.deep_view()[i as int] == dep@);
                assert(old(self).deps_map()[uri@].contains(dep@));
                assert(scope.contains(dep@));
            }
            let ghost fm = self.files_map();
            let ghost cm = self.cst_map();
            let ghost sm = self.symbol_table_map();
            let ghost sm1 = *self;
            let outcome = self.symbol_table(dep);
            proof {
                lemma_preserves_trans(old(self).files_map(), fm, self.files_map());
                lemma_preserves_trans(old(self).cst_map(), cm, self.cst_map());
                lemma_preserves_trans(old(self).symbol_table_map(), sm, self.symbol_table_map());
                lemma_agrees_widen(fm, self.files_map(), set![dep@], scope);
                lemma_agrees_trans(old(self).files_map(), fm, self.files_map(), scope);
                lemma_agrees_widen(cm, self.cst_map(), set![dep@], scope);
                lemma_agrees_trans(old(self).cst_map(), cm, self.cst_map(), scope);
                lemma_agrees_widen(sm, self.symbol_table_map(), set![dep@], scope);
                lemma_agrees_trans(old(self).symbol_table_map(), sm, self.symbol_table_map(), scope);
            }
            let table = match outcome {
                Ok(t) => t,
                Err(e) => {
                    proof {
                        if Self::ust_inputs_fresh(*old(self), uri@) {
                            assert(fresh_at(old(self).symbol_table_map(), dep@));
                            assert(fresh_at(sm1.symbol_table_map(), dep@));
                            assert(false);
                        }
                    }
                    return Err(e);
                },
            };
            symbol_tables.push((dep.clone(), table));
            i = i + 1;
        }
        let lowered = self.pipeline.lower(uri, &tree, &symbol_tables);
        match lowered {
            Ok(u) => {
                let a = Arc::new(u);
                let handed = arc_clone(&a);
                self.ust.insert(uri.clone(), Ok(a));
                Ok(handed)
            },
            Err(le) => {
                let wrapped = Error::Lowering { message: le.message, span: le.span };
                let handed = wrapped.duplicate();
                self.ust.insert(uri.clone(), Err(wrapped));
                Err(handed)
            },
        }
    }

    // Core API: type information table.

    /// The type information table of `uri`: the trusted cache entry, or
    /// freshly built from the lowered tree.  Building cannot fail; an
    /// error can only come from the stages below.
    pub fn type_info_table(&mut self, uri: &Url) -> (r: Result<Arc<P::TypeInfoTable>, Error>)
        requires
            old(self).wf(),
        ensures
            final(self).wf(),
            fresh_at(old(self).type_info_map(), uri@) ==> *final(self) == *old(self) && (
            r matches Ok(t) && t == old(self).type_info_map()[uri@].value),
            r matches Ok(t) ==> fresh_at(final(self).type_info_map(), uri@) && final(self).type_info_map()[uri@].value == t,
            !fresh_at(old(self).type_info_map(), uri@) && r is Ok ==> fresh_at(
                final(self).ust_map(),
                uri@,
            ) && final(self).ust_map()[uri@].value is Ok,
            r is Err ==> final(self).type_info_map() == old(self).type_info_map(),
            fresh_at(old(self).ust_map(), uri@) && old(self).ust_map()[uri@].value is Ok ==> r
                is Ok,
            preserves_entries(old(self).files_map(), final(self).files_map()),
            agrees_outside(old(self).files_map(), final(self).files_map(), old(self).dep_scope(uri@)),
            preserves_entries(old(self).cst_map(), final(self).cst_map()),
            agrees_outside(old(self).cst_map(), final(self).cst_map(), old(self).dep_scope(uri@)),
            preserves_entries(old(self).symbol_table_map(), final(self).symbol_table_map()),
            agrees_outside(
                old(self).symbol_table_map(),
                final(self).symbol_table_map(),
                old(self).dep_scope(uri@),
            ),
            preserves_entries(old(self).ust_map(), final(self).ust_map()),
            agrees_outside(old(self).ust_map(), final(self).ust_map(), set![uri@]),
            preserves_entries(old(self).type_info_map(), final(self).type_info_map()),
            agrees_outside(old(self).type_info_map(), final(self).type_info_map(), set![uri@]),
            r matches Err(e) ==> (e@ is Parser || e@ is NotFound || e@ is Io || e@ is Lowering
                || e@ is Impossible),
            final(self).ast_map() == old(self).ast_map(),
            final(self).info_map() == old(self).info_map(),
            final(self).item_map() == old(self).item_map(),
            Self::same_deps(*old(self), *final(self)),
            Self::same_source(*old(self), *final(self)),
    {
        let hit = match self.type_info_table.get_unless_stale(uri) {
            Some(table) => Some(arc_clone(table)),
            None => None,
        };
        match hit {
            Some(table) => Ok(table),
            None => self.recompute_type_info_table(uri),
        }
    }

    /// Builds `uri`'s type information table anew, unconditionally, and
    /// caches it.
    pub fn recompute_type_info_table(&mut self, uri: &Url) -> (r: Result<
        Arc<P::TypeInfoTable>,
        Error,
    >)
        requires
            old(self).wf(),
        ensures
            final(self).wf(),
            r matches Ok(t) ==> fresh_at(final(self).type_info_map(), uri@) && final(self).type_info_map()[uri@].value == t,
            r is Ok ==> fresh_at(final(self).ust_map(), uri@) && final(self).ust_map()[uri@].value is Ok,
            r is Err ==> final(self).type_info_map() == old(self).type_info_map(),
            fresh_at(old(self).ust_map(), uri@) && old(self).ust_map()[uri@].value is Ok ==> r
                is Ok,
            preserves_entries(old(self).files_map(), final(self).files_map()),
            agrees_outside(old(self).files_map(), final(self).files_map(), old(self).dep_scope(uri@)),
            preserves_entries(old(self).cst_map(), final(self).cst_map()),
            agrees_outside(old(self).cst_map(), final(self).cst_map(), old(self).dep_scope(uri@)),
            preserves_entries(old(self).symbol_table_map(), final(self).symbol_table_map()),
            agrees_outside(
                old(self).symbol_table_map(),
                final(self).symbol_table_map(),
                old(self).dep_scope(uri@),
            ),
            preserves_entries(old(self).ust_map(), final(self).ust_map()),
            agrees_outside(old(self).ust_map(), final(self).ust_map(), set![uri@]),
            forall|k: Seq<char>|
                k != uri@ && fresh_at(old(self).type_info_map(), k) ==> fresh_at(
                    final(self).type_info_map(),
                    k,
                ) && final(self).type_info_map()[k] == old(self).type_info_map()[k],
            forall|k: Seq<char>|
                old(self).type_info_map().contains_key(k) ==> final(self).type_info_map()
                    .contains_key(k),
            agrees_outside(old(self).type_info_map(), final(self).type_info_map(), set![uri@]),
            r matches Err(e) ==> (e@ is Parser || e@ is NotFound || e@ is Io || e@ is Lowering
                || e@ is Impossible),
            final(self).ast_map() == old(self).ast_map(),
            final(self).info_map() == old(self).info_map(),
            final(self).item_map() == old(self).item_map(),
            Self::same_deps(*old(self), *final(self)),
            Self::same_source(*old(self), *final(self)),
    {
        let lowered = match self.ust(uri) {
            Ok(u) => u,
            Err(e) => {
                return Err(e);
            },
        };
        let table = self.pipeline.build_type_info_table(uri, &lowered);
        let table = Arc::new(table);
        let handed = arc_clone(&table);
        self.type_info_table.insert(uri.clone(), table);
        Ok(handed)
    }

    // Dependency-graph construction.

    /// The cached import list of `k`, as declared in its parsed module.
    pub open spec fn cst_imports(self, k: Seq<char>) -> Seq<Seq<char>> {
        self.cst_map()[k].value->Ok_0.use_decls.deep_view()
    }

    /// `k`'s parse is cached and trusted, and its declared imports
    /// resolve, in declaration order, exactly to `ds`.
    pub open spec fn cst_resolves_to(self, k: Seq<char>, ds: Seq<Seq<char>>) -> bool {
        &&& fresh_at(self.cst_map(), k)
        &&& self.cst_map()[k].value is Ok
        &&& ds.len() == self.cst_imports(k).len()
        &&& forall|j: int|
            0 <= j < ds.len() ==> join_of(k, self.cst_imports(k)[j]) == Some(#[trigger] ds[j])
    }

    /// Module `a`'s cached parse declares an import resolving to `b`.
    pub open spec fn cst_edge(self, a: Seq<char>, b: Seq<char>) -> bool {
        &&& fresh_at(self.cst_map(), a)
        &&& self.cst_map()[a].value is Ok
        &&& exists|j: int|
            0 <= j < self.cst_imports(a).len() && join_of(a, #[trigger] self.cst_imports(a)[j])
                == Some(b)
    }

    /// Consecutive members of `w` are import edges of the parse cache.
    pub open spec fn cst_chain(self, w: Seq<Seq<char>>) -> bool {
        forall|i: int| 0 <= i < w.len() - 1 ==> self.cst_edge(w[i], #[trigger] w[i + 1])
    }

    /// The published graph is complete and current: it covers exactly the
    /// tracked modules, records each one's declared imports, and every
    /// recorded import is itself covered.
    pub open spec fn built(self) -> bool {
        &&& self.deps_map().dom() == self.files_map().dom()
        &&& forall|k: Seq<char>|
            #[trigger] self.deps_map().contains_key(k) ==> self.cst_resolves_to(
                k,
                self.deps_map()[k],
            )
        &&& forall|k: Seq<char>, j: int|
            self.deps_map().contains_key(k) && 0 <= j < self.deps_map()[k].len()
                ==> self.deps_map().contains_key(#[trigger] self.deps_map()[k][j])
    }

    /// All module identifiers the database can come to track lie in `univ`.
    pub open spec fn within(self, univ: Set<Seq<char>>) -> bool {
        &&& self.src_modules().subset_of(univ)
        &&& self.files_map().dom().subset_of(univ)
        &&& self.cst_map().dom().subset_of(univ)
    }

    /// Trusted parse entries persist, so import edges and resolved import
    /// lists persist with them.
    proof fn lemma_edges_persist(pre: Self, post: Self)
        requires
            preserves_entries(pre.cst_map(), post.cst_map()),
        ensures
            forall|a: Seq<char>, b: Seq<char>|
                #[trigger] pre.cst_edge(a, b) ==> post.cst_edge(a, b),
            forall|k: Seq<char>, ds: Seq<Seq<char>>|
                #[trigger] pre.cst_resolves_to(k, ds) ==> post.cst_resolves_to(k, ds),
            forall|w: Seq<Seq<char>>| #[trigger] pre.cst_chain(w) ==> post.cst_chain(w),
    {
        assert forall|a: Seq<char>, b: Seq<char>| #[trigger] pre.cst_edge(a, b) implies post.cst_edge(
            a,
            b,
        ) by {
            assert(fresh_at(pre.cst_map(), a));
            assert(post.cst_map()[a] == pre.cst_map()[a]);
        }
        assert forall|k: Seq<char>, ds: Seq<Seq<char>>| #[trigger] pre.cst_resolves_to(k, ds) implies post.cst_resolves_to(
            k,
            ds,
        ) by {
            assert(fresh_at(pre.cst_map(), k));
            assert(post.cst_map()[k] == pre.cst_map()[k]);
        }
        assert forall|w: Seq<Seq<char>>| #[trigger] pre.cst_chain(w) implies post.cst_chain(w) by {
            assert forall|i: int| 0 <= i < w.len() - 1 implies post.cst_edge(
                w[i],
                #[trigger] w[i + 1],
            ) by {
                assert(pre.cst_edge(w[i], w[i + 1]));
            }
        }
    }

    /// A cached parse resolves its imports to exactly one list.
    proof fn lemma_resolves_unique(self, k: Seq<char>, ds1: Seq<Seq<char>>, ds2: Seq<Seq<char>>)
        requires
            self.cst_resolves_to(k, ds1),
            self.cst_resolves_to(k, ds2),
        ensures
            ds1 == ds2,
    {
        assert forall|j: int| 0 <= j < ds1.len() implies ds1[j] == ds2[j] by {
            assert(join_of(k, self.cst_imports(k)[j]) == Some(ds1[j]));
            assert(join_of(k, self.cst_imports(k)[j]) == Some(ds2[j]));
        }
        assert(ds1 =~= ds2);
    }

    /// A chain through the parse cache of a built database is a path in
    /// the published graph.
    proof fn lemma_chain_reaches(self, w: Seq<Seq<char>>, t: Seq<char>, p: int)
        requires
            self.built(),
            self.cst_chain(w),
            w.len() > 0,
            self.cst_edge(w.last(), t),
            forall|i: int| 0 <= i < w.len() ==> self.deps_map().contains_key(#[trigger] w[i]),
            0 <= p < w.len(),
        ensures
            crate::dependency_graph::reaches_n(self.deps_map(), w[p], t, (w.len() - p) as nat),
        decreases w.len() - p,
    {
        let g = self.deps_map();
        if p == w.len() - 1 {
            self.lemma_edge_step(w[p], t);
            assert(crate::dependency_graph::reaches_n(g, t, t, 0));
            assert(crate::dependency_graph::reaches_n(g, w[p], t, 1));
        } else {
            assert(self.cst_edge(w[p], w[p + 1]));
            self.lemma_edge_step(w[p], w[p + 1]);
            self.lemma_chain_reaches(w, t, p + 1);
            assert(crate::dependency_graph::reaches_n(g, w[p], t, (w.len() - p) as nat));
        }
    }

    /// In a built database a parse-cache edge from a tracked module is a
    /// graph edge.
    proof fn lemma_edge_step(self, a: Seq<char>, b: Seq<char>)
        requires
            self.built(),
            self.deps_map().contains_key(a),
            self.cst_edge(a, b),
        ensures
            crate::dependency_graph::step(self.deps_map(), a, b),
    {
        let j = choose|j: int|
            0 <= j < self.cst_imports(a).len() && join_of(a, #[trigger] self.cst_imports(a)[j])
                == Some(b);
        assert(self.cst_resolves_to(a, self.deps_map()[a]));
        assert(join_of(a, self.cst_imports(a)[j]) == Some(self.deps_map()[a][j]));
        assert(self.deps_map()[a][j] == b);
        assert(self.deps_map()[a].contains(b));
    }

    /// Recursively visits a module, records its resolved imports in
    /// `graph`, and rejects import cycles via the explicit recursion
    /// `stack`, whose contents become the cycle witness.
    fn visit_module(
        &mut self,
        module_uri: &Url,
        visited: &mut Vec<Url>,
        stack: &mut Vec<Url>,
        graph: &mut DependencyGraph,
        univ: Ghost<Set<Seq<char>>>,
    ) -> (r: Result<(), Error>)
        requires
            old(self).wf(),
            old(graph).wf(),
            old(graph).topo_ord(),
            univ@.finite(),
            old(self).within(univ@),
            url_set(*old(visited)).subset_of(univ@),
            url_set(*old(visited)) == old(graph)@.dom().union(url_set(*old(stack))),
            old(graph)@.dom().disjoint(url_set(*old(stack))),
            forall|k: Seq<char>|
                #[trigger] old(graph)@.contains_key(k) ==> old(self).cst_resolves_to(
                    k,
                    old(graph)@[k],
                ),
            old(self).cst_chain(old(stack).deep_view()),
            old(stack).deep_view().len() > 0 ==> old(self).cst_edge(
                old(stack).deep_view().last(),
                module_uri@,
            ),
        ensures
            final(self).wf(),
            final(graph).wf(),
            final(self).symbol_table_map() == old(self).symbol_table_map(),
            final(self).ust_map() == old(self).ust_map(),
            Self::same_upper_stages(*old(self), *final(self)),
            Self::same_deps(*old(self), *final(self)),
            Self::same_source(*old(self), *final(self)),
            preserves_entries(old(self).files_map(), final(self).files_map()),
            preserves_entries(old(self).cst_map(), final(self).cst_map()),
            final(self).within(univ@),
            final(self).files_map().dom().subset_of(
                old(self).files_map().dom().union(url_set(*final(visited))),
            ),
            forall|k: Seq<char>|
                #[trigger] final(self).files_map().contains_key(k) && !old(self).files_map().contains_key(k) ==> old(self).src_modules().contains(k),
            old(visited).deep_view().is_prefix_of(final(visited).deep_view()),
            old(graph)@.submap_of(final(graph)@),
            forall|k: Seq<char>|
                #[trigger] final(graph)@.contains_key(k) ==> final(self).cst_resolves_to(
                    k,
                    final(graph)@[k],
                ),
            r is Ok ==> final(stack).deep_view() == old(stack).deep_view() && final(graph).topo_ord() && url_set(*final(visited)) == final(graph)@.dom().union(
                url_set(*old(stack)),
            ) && url_set(*final(visited)).subset_of(univ@) && final(graph)@.dom().disjoint(
                url_set(*old(stack)),
            ) && url_set(*final(visited)).contains(module_uri@) && (!url_set(
                *old(stack),
            ).contains(module_uri@) ==> final(graph)@.contains_key(module_uri@)),
            url_set(*old(stack)).contains(module_uri@) ==> r is Err,
            r matches Err(e) ==> (e@ is Parser || e@ is NotFound || e@ is Io || e@ is ImportCycle
                || e@ is UrlResolution),
            r matches Err(e) ==> (e@ matches ErrorView::ImportCycle { module, witness }
                ==> witness.len() > 0 && final(self).cst_chain(witness) && final(self).cst_edge(
                witness.last(),
                module,
            ) && witness.contains(module)),
            old(self).built() && old(graph)@.submap_of(old(self).deps_map()) && url_set(
                *old(visited),
            ).subset_of(old(self).deps_map().dom()) && old(self).deps_map().contains_key(
                module_uri@,
            ) ==> r is Ok && *final(self) == *old(self) && final(graph)@.submap_of(
                old(self).deps_map(),
            ) && url_set(*final(visited)).subset_of(old(self).deps_map().dom()),
            old(self).resolved_closed() && old(self).files_map().contains_key(module_uri@)
                ==> *final(self) == *old(self) && (r matches Err(e) ==> e@ is ImportCycle),
        decreases univ@.difference(url_set(*old(visited))).len(),
    {
        let ghost pre = *old(self);
        let ghost h = pre.built() && old(graph)@.submap_of(pre.deps_map()) && url_set(
            *old(visited),
        ).subset_of(pre.deps_map().dom()) && pre.deps_map().contains_key(module_uri@);
        let ghost rc = pre.resolved_closed() && pre.files_map().contains_key(module_uri@);
        if contains_url(stack, module_uri) {
            // Cycle detected: the recursion stack is the witness.
            proof {
                if h {
                    // A built database has an acyclic graph, so the walk
                    // cannot have closed a cycle.
                    self.lemma_deps_acyclic();
                    let w = stack.deep_view();
                    assert forall|i: int| 0 <= i < w.len() implies self.deps_map().contains_key(
                        #[trigger] w[i],
                    ) by {
                        assert(w.contains(w[i]));
                        assert(url_set(*stack).contains(w[i]));
                        assert(url_set(*visited).contains(w[i]));
                    }
                    let p = choose|p: int| 0 <= p < w.len() && w[p] == module_uri@;
                    self.lemma_chain_reaches(w, module_uri@, p);
                    assert(crate::dependency_graph::reaches_n(
                        self.deps_map(),
                        module_uri@,
                        module_uri@,
                        (w.len() - p) as nat,
                    ));
                    assert(crate::dependency_graph::depends_on(
                        self.deps_map(),
                        module_uri@,
                        module_uri@,
                    ));
                    assert(false);
                }
            }
            let cycle = clone_urls(stack);
            proof {
                assert(cycle.deep_view() =~= stack.deep_view());
                assert(stack.deep_view().last() == cycle.deep_view().last());
            }
            return Err(Error::ImportCycle { module: module_uri.clone(), witness: cycle });
        }
        if contains_url(visited, module_uri) {
            // Already processed: under the stack discipline it is recorded.
            proof {
                assert(url_set(*visited).contains(module_uri@));
                assert(old(visited).deep_view().is_prefix_of(visited.deep_view()));
            }
            return Ok(());
        }
        visited.push(module_uri.clone());
        stack.push(module_uri.clone());
        proof {
            assert(visited.deep_view() =~= old(visited).deep_view().push(module_uri@));
            assert(stack.deep_view() =~= old(stack).deep_view().push(module_uri@));
            lemma_push_to_set(old(visited).deep_view(), visited.deep_view(), module_uri@);
            lemma_push_to_set(old(stack).deep_view(), stack.deep_view(), module_uri@);
            if h {
                assert(pre.deps_map().contains_key(module_uri@));
                assert(pre.cst_resolves_to(module_uri@, pre.deps_map()[module_uri@]));
                assert(fresh_at(pre.cst_map(), module_uri@));
            }
        }
        let outcome = self.cst(module_uri);
        match outcome {
            Ok(_) => {},
            Err(e) => {
                proof {
                    if h {
                        assert(false);
                    }
                    if rc {
                        assert(fresh_at(pre.cst_map(), module_uri@));
                        assert(false);
                    }
                }
                return Err(e);
            },
        }
        // Collect the declared imports from the trusted parse entry.
        let use_decls = match self.cst.get_unless_stale(module_uri) {
            Some(res) => match res {
                Ok(pm) => clone_urls(&pm.use_decls),
                Err(_) => {
                    proof {
                        assert(false);
                    }
                    unreached()
                },
            },
            None => {
                proof {
                    assert(false);
                }
                unreached()
            },
        };
        proof {
            assert(module_uri@ == module_uri@);
            assert(self.cst_map().dom().contains(module_uri@));
            assert(univ@.contains(module_uri@));
            vstd::set_lib::lemma_len_subset(url_set(*visited), univ@);
            univ@.lemma_set_insert_diff_decreases(url_set(*old(visited)), module_uri@);
        }
        let ghost self1 = *self;
        let mut dependencies: Vec<Url> = Vec::new();
        let mut i: usize = 0;
        while i < use_decls.len()
            invariant
                self.wf(),
                graph.wf(),
                graph.topo_ord(),
                univ@.finite(),
                self.within(univ@),
                i <= use_decls@.len(),
                // the module's trusted parse entry and its imports
                fresh_at(self.cst_map(), module_uri@),
                self.cst_map()[module_uri@].value is Ok,
                self.cst_imports(module_uri@) == use_decls.deep_view(),
                // resolved prefix
                dependencies@.len() == i,
                forall|j: int|
                    0 <= j < i ==> join_of(module_uri@, use_decls.deep_view()[j]) == Some(
                        #[trigger] dependencies.deep_view()[j],
                    ),
                forall|j: int|
                    0 <= j < i ==> graph@.contains_key(#[trigger] dependencies.deep_view()[j]),
                // the walk's bookkeeping
                stack.deep_view() == old(stack).deep_view().push(module_uri@),
                url_set(*visited) == graph@.dom().union(url_set(*stack)),
                graph@.dom().disjoint(url_set(*stack)),
                url_set(*visited).subset_of(univ@),
                url_set(*old(visited)).insert(module_uri@).subset_of(url_set(*visited)),
                !url_set(*old(visited)).contains(module_uri@),
                univ@.contains(module_uri@),
                old(visited).deep_view().is_prefix_of(visited.deep_view()),
                forall|k: Seq<char>|
                    #[trigger] graph@.contains_key(k) ==> self.cst_resolves_to(k, graph@[k]),
                self.cst_chain(stack.deep_view()),
                old(graph)@.submap_of(graph@),
                // frames
                self.symbol_table_map() == old(self).symbol_table_map(),
                self.ust_map() == old(self).ust_map(),
                Self::same_upper_stages(*old(self), *self),
                Self::same_deps(*old(self), *self),
                Self::same_source(*old(self), *self),
                preserves_entries(old(self).files_map(), self.files_map()),
                preserves_entries(old(self).cst_map(), self.cst_map()),
                self.files_map().dom().subset_of(
                    old(self).files_map().dom().union(url_set(*visited)),
                ),
                forall|k: Seq<char>|
                    #[trigger] self.files_map().contains_key(k) && !old(self).files_map().contains_key(k) ==> old(self).src_modules().contains(k),
                // a rebuild over a built database revisits without change
                pre == *old(self),
                h == (pre.built() && old(graph)@.submap_of(pre.deps_map()) && url_set(
                    *old(visited),
                ).subset_of(pre.deps_map().dom()) && pre.deps_map().contains_key(module_uri@)),
                h ==> *self == pre && graph@.submap_of(pre.deps_map()) && url_set(
                    *visited,
                ).subset_of(pre.deps_map().dom()),
                rc == (pre.resolved_closed() && pre.files_map().contains_key(module_uri@)),
                rc ==> *self == pre,
            decreases use_decls@.len() - i,
        {
            let dep_url = match self.resolve_module_name(&use_decls[i], module_uri) {
                Ok(u) => u,
                Err(e) => {
                    proof {
                        if h {
                            assert(pre.built());
                            assert(pre.deps_map().contains_key(module_uri@));
                            assert(pre.cst_resolves_to(module_uri@, pre.deps_map()[module_uri@]));
                            assert(pre.cst_imports(module_uri@) == use_decls.deep_view());
                            assert(join_of(module_uri@, use_decls.deep_view()[i as int]) == Some(
                                pre.deps_map()[module_uri@][i as int],
                            ));
                            assert(false);
                        }
                        if rc {
                            assert(pre.files_map().contains_key(module_uri@));
                            assert(join_of(module_uri@, pre.cst_imports(module_uri@)[i as int]) is Some);
                            assert(pre.cst_imports(module_uri@) == use_decls.deep_view());
                            assert(false);
                        }
                    }
                    return Err(e);
                },
            };
            let ghost dpre = dependencies.deep_view();
            dependencies.push(dep_url.clone());
            proof {
                assert(dependencies.deep_view() =~= dpre.push(dep_url@));
                assert(dependencies.deep_view()[i as int] == dep_url@);
                assert(self.cst_edge(module_uri@, dep_url@)) by {
                    assert(join_of(module_uri@, self.cst_imports(module_uri@)[i as int]) == Some(
                        dep_url@,
                    ));
                }
                if h {
                    assert(pre.built());
                    assert(pre.deps_map().contains_key(module_uri@));
                    assert(pre.cst_resolves_to(module_uri@, pre.deps_map()[module_uri@]));
                    assert(pre.cst_imports(module_uri@) == use_decls.deep_view());
                    assert(join_of(module_uri@, use_decls.deep_view()[i as int]) == Some(
                        pre.deps_map()[module_uri@][i as int],
                    ));
                    assert(dep_url@ == pre.deps_map()[module_uri@][i as int]);
                    assert(pre.deps_map()[module_uri@].contains(dep_url@));
                    assert(pre.deps_map().contains_key(dep_url@));
                }
            }
            let ghost fm = self.files_map();
            let ghost cm = self.cst_map();
            let ghost g1 = graph@;
            proof {
                if rc {
                    assert(pre.files_map().contains_key(module_uri@));
                    assert(pre.cst_imports(module_uri@) == use_decls.deep_view());
                    assert(join_of(module_uri@, pre.cst_imports(module_uri@)[i as int]) matches Some(d)
                        && pre.files_map().contains_key(d));
                    assert(pre.files_map().contains_key(dep_url@));
                }
                // termination: the walk has discovered this module already
                univ@.lemma_set_insert_diff_decreases(url_set(*old(visited)), module_uri@);
                vstd::set_lib::lemma_len_subset(
                    univ@.difference(url_set(*old(visited)).insert(module_uri@)),
                    univ@,
                );
                assert(univ@.difference(url_set(*visited)).subset_of(
                    univ@.difference(url_set(*old(visited)).insert(module_uri@)),
                ));
                vstd::set_lib::lemma_len_subset(
                    univ@.difference(url_set(*visited)),
                    univ@.difference(url_set(*old(visited)).insert(module_uri@)),
                );
            }
            let sub = self.visit_module(&dep_url, visited, stack, graph, univ);
            proof {
                lemma_preserves_trans(old(self).files_map(), fm, self.files_map());
                lemma_preserves_trans(old(self).cst_map(), cm, self.cst_map());
                lemma_submap_trans(old(graph)@, g1, graph@);
                assert(old(visited).deep_view().is_prefix_of(visited.deep_view()));
            }
            match sub {
                Ok(_) => {},
                Err(e) => {
                    proof {
                        if h {
                            assert(false);
                        }
                        if rc {
                            assert(e@ is ImportCycle);
                        }
                    }
                    return Err(e);
                },
            }
            proof {
                assert(url_set(*visited).contains(dep_url@));
                // a stack member cannot have been visited successfully
                assert(graph@.contains_key(dep_url@));
                assert forall|j: int|
                    0 <= j < i + 1 implies graph@.contains_key(
                    #[trigger] dependencies.deep_view()[j],
                ) by {
                    if j < i {
                        assert(g1.contains_key(dependencies.deep_view()[j]));
                        assert(g1.submap_of(graph@));
                    } else {
                        assert(dependencies.deep_view()[j] == dep_url@);
                    }
                }
            }
            i = i + 1;
        }
        proof {
            assert(use_decls.deep_view() =~= use_decls.deep_view().take(use_decls@.len() as int));
            assert(self.cst_resolves_to(module_uri@, dependencies.deep_view()));
            assert(!graph@.contains_key(module_uri@)) by {
                assert(url_set(*stack).contains(module_uri@)) by {
                    assert(stack.deep_view().last() == module_uri@);
                    assert(stack.deep_view().contains(module_uri@));
                }
            }
            graph.lemma_key_seq_dom();
            assert forall|j: int| 0 <= j < dependencies@.len() implies graph@.contains_key(
                #[trigger] dependencies@[j]@,
            ) by {
                assert(dependencies.deep_view()[j] == dependencies@[j]@);
            }
            if h {
                self.lemma_resolves_unique(
                    module_uri@,
                    dependencies.deep_view(),
                    pre.deps_map()[module_uri@],
                );
            }
        }
        let ghost graph0 = *graph;
        graph.insert(module_uri.clone(), dependencies);
        let ghost spre = stack.deep_view();
        let ghost svpre = stack@;
        let _ = stack.pop();
        proof {
            assert forall|j: int| 0 <= j < stack.deep_view().len() implies stack.deep_view()[j]
                == old(stack).deep_view()[j] by {
                assert(stack.deep_view()[j] == stack@[j]@);
                assert(stack@[j] == svpre[j]);
                assert(svpre[j]@ == spre[j]);
                assert(spre[j] == old(stack).deep_view()[j]);
            }
            assert(stack.deep_view() =~= old(stack).deep_view());
            assert(url_set(*visited) =~= graph@.dom().union(url_set(*stack)));
            assert(graph@.dom().disjoint(url_set(*stack))) by {
                assert forall|x: Seq<char>|
                    graph@.contains_key(x) && url_set(*stack).contains(x) implies false by {
                    assert(graph0@.dom().insert(module_uri@).contains(x));
                    assert(url_set(*old(stack)).contains(x));
                    assert(old(stack).deep_view().contains(x));
                    assert(stack.deep_view().push(module_uri@).contains(x));
                    if x == module_uri@ {
                        assert(url_set(*old(visited)).contains(x));
                    } else {
                        assert(graph0@.contains_key(x));
                        assert(url_set(*old(stack)).insert(module_uri@).contains(x));
                    }
                }
            }
            assert(url_set(*visited).contains(module_uri@));
        }
        Ok(())
    }

    /// Rebuilds the dependency graph for every tracked module and checks
    /// for cycles.  The graph is swapped in only after every module has
    /// been traversed without error; a partial graph is never published.
    /// Rebuilding an already consistent graph is a no-op that touches no
    /// cache and calls no stage function.
    pub fn build_dependency_dag(&mut self) -> (r: Result<(), Error>)
        requires
            old(self).wf(),
        ensures
            final(self).wf(),
            final(self).symbol_table_map() == old(self).symbol_table_map(),
            final(self).ust_map() == old(self).ust_map(),
            Self::same_upper_stages(*old(self), *final(self)),
            Self::same_source(*old(self), *final(self)),
            preserves_entries(old(self).files_map(), final(self).files_map()),
            preserves_entries(old(self).cst_map(), final(self).cst_map()),
            // the traversal is seeded from the tracked modules; it can
            // discover only what the source provider serves
            forall|k: Seq<char>|
                #[trigger] final(self).files_map().contains_key(k) && !old(self).files_map().contains_key(k) ==> old(self).src_modules().contains(k),
            r is Ok ==> forall|k: Seq<char>|
                #[trigger] final(self).deps_map().contains_key(k) ==> old(self).files_map().contains_key(k) || old(self).src_modules().contains(k),
            r is Ok ==> final(self).built(),
            r is Ok ==> crate::dependency_graph::acyclic(final(self).deps_map()),
            r is Err ==> final(self).deps_map() == old(self).deps_map(),
            r matches Err(e) ==> (e@ is Parser || e@ is NotFound || e@ is Io || e@ is ImportCycle
                || e@ is UrlResolution),
            r matches Err(e) ==> (e@ matches ErrorView::ImportCycle { module, witness }
                ==> witness.len() > 0 && final(self).cst_chain(witness) && final(self).cst_edge(
                witness.last(),
                module,
            ) && witness.contains(module)),
            old(self).built() ==> r is Ok && final(self).deps_map() == old(self).deps_map()
                && final(self).files_map() == old(self).files_map() && final(self).cst_map()
                == old(self).cst_map() && final(self).pipe() == old(self).pipe(),
            // over fully parsed, closed sources the rebuild touches
            // nothing and can fail only by finding an import cycle
            old(self).resolved_closed() ==> (r matches Err(e) ==> e@ is ImportCycle) && final(self).files_map() == old(self).files_map() && final(self).cst_map() == old(self).cst_map() && final(self).pipe() == old(self).pipe(),
    {
        let modules = self.files.keys();
        let mut visited: Vec<Url> = Vec::new();
        let mut stack: Vec<Url> = Vec::new();
        let mut graph = DependencyGraph::new();
        let ghost univ = self.src_modules().union(self.files_map().dom()).union(
            self.cst_map().dom(),
        );
        proof {
            self.source.lemma_catalogue();
            self.files.lemma_dom_finite();
            self.cst.lemma_dom_finite();
            self.files.lemma_key_seq_dom();
            assert(url_set(visited) =~= Set::<Seq<char>>::empty());
            assert(url_set(stack) =~= Set::<Seq<char>>::empty());
            assert(url_set(visited) =~= graph@.dom().union(url_set(stack)));
            assert forall|j: int| 0 <= j < modules.deep_view().len() implies old(self).files_map()
                .contains_key(#[trigger] modules.deep_view()[j]) by {
                assert(old(self).files_keys().contains(modules.deep_view()[j]));
            }
        }
        let mut i: usize = 0;
        while i < modules.len()
            invariant
                self.wf(),
                graph.wf(),
                graph.topo_ord(),
                univ.finite(),
                self.within(univ),
                i <= modules@.len(),
                modules.deep_view() == old(self).files_keys(),
                forall|j: int|
                    0 <= j < modules@.len() ==> old(self).files_map().contains_key(
                        #[trigger] modules.deep_view()[j],
                    ),
                stack.deep_view() == Seq::<Seq<char>>::empty(),
                url_set(stack) == Set::<Seq<char>>::empty(),
                url_set(visited) == graph@.dom(),
                url_set(visited) == graph@.dom().union(url_set(stack)),
                url_set(visited).subset_of(univ),
                forall|k: Seq<char>|
                    #[trigger] graph@.contains_key(k) ==> self.cst_resolves_to(k, graph@[k]),
                forall|j: int| 0 <= j < i ==> url_set(visited).contains(modules.deep_view()[j]),
                self.symbol_table_map() == old(self).symbol_table_map(),
                self.ust_map() == old(self).ust_map(),
                Self::same_upper_stages(*old(self), *self),
                Self::same_deps(*old(self), *self),
                Self::same_source(*old(self), *self),
                preserves_entries(old(self).files_map(), self.files_map()),
                preserves_entries(old(self).cst_map(), self.cst_map()),
                self.files_map().dom().subset_of(
                    old(self).files_map().dom().union(url_set(visited)),
                ),
                forall|k: Seq<char>|
                    #[trigger] self.files_map().contains_key(k) && !old(self).files_map().contains_key(k) ==> old(self).src_modules().contains(k),
                old(self).built() ==> *self == *old(self) && graph@.submap_of(
                    old(self).deps_map(),
                ) && url_set(visited).subset_of(old(self).deps_map().dom()),
                old(self).resolved_closed() ==> *self == *old(self),
            decreases modules@.len() - i,
        {
            let uri = &modules[i];
            proof {
                assert(uri@ == modules.deep_view()[i as int]);
                assert(old(self).files_map().contains_key(uri@));
                if old(self).built() {
                    assert(old(self).deps_map().dom() == old(self).files_map().dom());
                    assert(old(self).deps_map().contains_key(uri@));
                }
            }
            let ghost fm = self.files_map();
            let ghost cm = self.cst_map();
            let ghost g1 = graph@;
            let outcome = self.visit_module(uri, &mut visited, &mut stack, &mut graph, Ghost(univ));
            proof {
                lemma_preserves_trans(old(self).files_map(), fm, self.files_map());
                lemma_preserves_trans(old(self).cst_map(), cm, self.cst_map());
            }
            match outcome {
                Ok(_) => {},
                Err(e) => {
                    proof {
                        if old(self).built() {
                            assert(false);
                        }
                        if old(self).resolved_closed() {
                            assert(e@ is ImportCycle);
                        }
                    }
                    return Err(e);
                },
            }
            proof {
                assert(url_set(visited) =~= graph@.dom().union(url_set(stack)));
                assert forall|j: int| 0 <= j < i + 1 implies url_set(visited).contains(
                    #[trigger] modules.deep_view()[j],
                ) by {
                    if j < i {
                        assert(url_set(visited).contains(modules.deep_view()[j]));
                    }
                }
            }
            i = i + 1;
        }
        proof {
            graph.lemma_topo_closed();
            graph.lemma_topo_acyclic();
            self.files.lemma_key_seq_dom();
            // the new graph covers exactly the tracked modules
            assert(graph@.dom() =~= self.files_map().dom()) by {
                assert forall|k: Seq<char>| graph@.contains_key(k) implies self.files_map()
                    .contains_key(k) by {
                    assert(self.cst_resolves_to(k, graph@[k]));
                    assert(fresh_at(self.cst_map(), k));
                }
                assert forall|k: Seq<char>| self.files_map().contains_key(k) implies graph@
                    .contains_key(k) by {
                    if !url_set(visited).contains(k) {
                        assert(old(self).files_map().contains_key(k));
                        assert(old(self).files_keys().contains(k)) by {
                            old(self).lemma_files_keys_dom();
                        }
                        let j = choose|j: int|
                            0 <= j < modules.deep_view().len() && modules.deep_view()[j] == k;
                        assert(url_set(visited).contains(k));
                    }
                }
            }
            if old(self).built() {
                assert(graph@ =~= old(self).deps_map());
            }
        }
        self.deps = graph;
        Ok(())
    }

    // Core API: typechecked syntax tree.

    /// The typechecked syntax tree of `uri`: the trusted cache entry, or
    /// the module freshly typechecked against the type information tables
    /// of itself and its direct dependencies.  A typechecking failure is
    /// cached like a success; on success the span-indexed editor tables
    /// are rebuilt as well.
    pub fn load_ast(&mut self, uri: &Url) -> (r: Result<Arc<P::Ast>, Error>)
        requires
            old(self).wf(),
        ensures
            final(self).wf(),
            fresh_at(old(self).ast_map(), uri@) ==> *final(self) == *old(self)
                && arc_result_matches(r, old(self).ast_map()[uri@].value),
            r matches Ok(t) ==> fresh_at(final(self).ast_map(), uri@)
                && (final(self).ast_map()[uri@].value matches Ok(v) && v == t),
            !fresh_at(old(self).ast_map(), uri@) && r is Ok ==> fresh_at(
                final(self).type_info_map(),
                uri@,
            ) && fresh_at(final(self).ust_map(), uri@) && final(self).ust_map()[uri@].value is Ok
                && fresh_at(final(self).info_map(), uri@) && fresh_at(
                final(self).item_map(),
                uri@,
            ) && (old(self).deps_map().contains_key(uri@) ==> forall|d: Seq<char>|
                old(self).deps_map()[uri@].contains(d) ==> fresh_at(
                    final(self).type_info_map(),
                    d,
                )),
            preserves_entries(old(self).files_map(), final(self).files_map()),
            preserves_entries(old(self).cst_map(), final(self).cst_map()),
            preserves_entries(old(self).symbol_table_map(), final(self).symbol_table_map()),
            preserves_entries(old(self).ust_map(), final(self).ust_map()),
            preserves_entries(old(self).type_info_map(), final(self).type_info_map()),
            preserves_entries(old(self).ast_map(), final(self).ast_map()),
            agrees_outside(old(self).ast_map(), final(self).ast_map(), set![uri@]),
            agrees_outside(old(self).info_map(), final(self).info_map(), set![uri@]),
            agrees_outside(old(self).item_map(), final(self).item_map(), set![uri@]),
            r matches Err(e) ==> (e@ is Parser || e@ is NotFound || e@ is Io || e@ is Lowering
                || e@ is Impossible || e@ is Type),
            // with every input already trusted, the typechecking stage
            // runs and its outcome, success or failure, stands in the
            // cache
            Self::ast_inputs_fresh(*old(self), uri@) ==> fresh_at(final(self).ast_map(), uri@)
                && arc_result_matches(r, final(self).ast_map()[uri@].value),
            Self::same_deps(*old(self), *final(self)),
            Self::same_source(*old(self), *final(self)),
    {
        let hit = match self.ast.get_unless_stale(uri) {
            Some(res) => match res {
                Ok(t) => Some(Ok(arc_clone(t))),
                Err(e) => Some(Err(e.duplicate())),
            },
            None => None,
        };
        match hit {
            Some(res) => res,
            None => self.recompute_ast(uri),
        }
    }

    fn recompute_ast(&mut self, uri: &Url) -> (r: Result<Arc<P::Ast>, Error>)
        requires
            old(self).wf(),
            !fresh_at(old(self).ast_map(), uri@),
        ensures
            final(self).wf(),
            r matches Ok(t) ==> fresh_at(final(self).ast_map(), uri@)
                && (final(self).ast_map()[uri@].value matches Ok(v) && v == t),
            r is Ok ==> fresh_at(final(self).type_info_map(), uri@) && fresh_at(
                final(self).ust_map(),
                uri@,
            ) && final(self).ust_map()[uri@].value is Ok && fresh_at(final(self).info_map(), uri@)
                && fresh_at(final(self).item_map(), uri@) && (old(self).deps_map().contains_key(
                uri@,
            ) ==> forall|d: Seq<char>|
                old(self).deps_map()[uri@].contains(d) ==> fresh_at(
                    final(self).type_info_map(),
                    d,
                )),
            preserves_entries(old(self).files_map(), final(self).files_map()),
            preserves_entries(old(self).cst_map(), final(self).cst_map()),
            preserves_entries(old(self).symbol_table_map(), final(self).symbol_table_map()),
            preserves_entries(old(self).ust_map(), final(self).ust_map()),
            preserves_entries(old(self).type_info_map(), final(self).type_info_map()),
            preserves_entries(old(self).ast_map(), final(self).ast_map()),
            agrees_outside(old(self).ast_map(), final(self).ast_map(), set![uri@]),
            agrees_outside(old(self).info_map(), final(self).info_map(), set![uri@]),
            agrees_outside(old(self).item_map(), final(self).item_map(), set![uri@]),
            r matches Err(e) ==> (e@ is Parser || e@ is NotFound || e@ is Io || e@ is Lowering
                || e@ is Impossible || e@ is Type),
            // with every input already trusted, the typechecking stage
            // runs and its outcome, success or failure, stands in the
            // cache
            Self::ast_inputs_fresh(*old(self), uri@) ==> fresh_at(final(self).ast_map(), uri@)
                && arc_result_matches(r, final(self).ast_map()[uri@].value),
            Self::same_deps(*old(self), *final(self)),
            Self::same_source(*old(self), *final(self)),
    {
        let lowered = match self.ust(uri) {
            Ok(u) => u,
            Err(e) => {
                proof {
                    if Self::ast_inputs_fresh(*old(self), uri@) {
                        assert(fresh_at(old(self).ust_map(), uri@));
                        assert(false);
                    }
                }
                return Err(e);
            },
        };
        // The direct dependencies; a module missing from the graph has none.
        let deps = match self.deps.get(uri) {
            Some(d) => clone_urls(d),
            None => Vec::new(),
        };
        let ghost deps_known = old(self).deps_map().contains_key(uri@);
        // The type information tables of the module itself and of all its
        // direct dependencies.
        let mut info_tables: Vec<(Url, Arc<P::TypeInfoTable>)> = Vec::new();
        let ghost mid = *self;
        let own_outcome = self.type_info_table(uri);
        proof {
            lemma_preserves_trans(old(self).files_map(), mid.files_map(), self.files_map());
            lemma_preserves_trans(old(self).cst_map(), mid.cst_map(), self.cst_map());
            lemma_preserves_trans(
                old(self).symbol_table_map(),
                mid.symbol_table_map(),
                self.symbol_table_map(),
            );
            lemma_preserves_trans(old(self).ust_map(), mid.ust_map(), self.ust_map());
        }
        let own = match own_outcome {
            Ok(t) => t,
            Err(e) => {
                proof {
                    if Self::ast_inputs_fresh(*old(self), uri@) {
                        assert(fresh_at(old(self).type_info_map(), uri@));
                        assert(fresh_at(mid.type_info_map(), uri@));
                        assert(false);
                    }
                }
                return Err(e);
            },
        };
        info_tables.push((uri.clone(), own));
        let mut i: usize = 0;
        while i < deps.len()
            invariant
                self.wf(),
                i <= deps@.len(),
                deps_known == old(self).deps_map().contains_key(uri@),
                deps_known ==> deps.deep_view() == old(self).deps_map()[uri@],
                !deps_known ==> deps@.len() == 0,
                fresh_at(self.ust_map(), uri@),
                self.ust_map()[uri@].value is Ok,
                fresh_at(self.type_info_map(), uri@),
                forall|j: int|
                    0 <= j < i ==> fresh_at(
                        self.type_info_map(),
                        #[trigger] deps.deep_view()[j],
                    ),
                preserves_entries(old(self).files_map(), self.files_map()),
                preserves_entries(old(self).cst_map(), self.cst_map()),
                preserves_entries(old(self).symbol_table_map(), self.symbol_table_map()),
                preserves_entries(old(self).ust_map(), self.ust_map()),
                preserves_entries(old(self).type_info_map(), self.type_info_map()),
                self.ast_map() == old(self).ast_map(),
                self.info_map() == old(self).info_map(),
                self.item_map() == old(self).item_map(),
                Self::same_deps(*old(self), *self),
                Self::same_source(*old(self), *self),
            decreases deps@.len() - i,
        {
            let dep = &deps[i];
            let ghost fm = self.files_map();
            let ghost cm = self.cst_map();
            let ghost sm = self.symbol_table_map();
            let ghost um = self.ust_map();
            let ghost tm = self.type_info_map();
            let outcome = self.type_info_table(dep);
            proof {
                lemma_preserves_trans(old(self).files_map(), fm, self.files_map());
                lemma_preserves_trans(old(self).cst_map(), cm, self.cst_map());
                lemma_preserves_trans(old(self).symbol_table_map(), sm, self.symbol_table_map());
                lemma_preserves_trans(old(self).ust_map(), um, self.ust_map());
                lemma_preserves_trans(old(self).type_info_map(), tm, self.type_info_map());
            }
            let table = match outcome {
                Ok(t) => t,
                Err(e) => {
                    proof {
                        if Self::ast_inputs_fresh(*old(self), uri@) {
                            assert(deps_known);
                            assert(deps.deep_view()[i as int] == dep@);
                            assert(old(self).deps_map()[uri@].contains(dep@));
                            assert(fresh_at(old(self).type_info_map(), dep@));
                            assert(fresh_at(tm, dep@));
                            assert(false);
                        }
                    }
                    return Err(e);
                },
            };
            info_tables.push((dep.clone(), table));
            proof {
                assert(deps.deep_view()[i as int] == dep@);
            }
            i = i + 1;
        }
        let checked = self.pipeline.typecheck(uri, &lowered, &info_tables);
        match checked {
            Ok(a) => {
                let a = Arc::new(a);
                let handed = arc_clone(&a);
                self.ast.insert(uri.clone(), Ok(a));
                // Rebuild the span-indexed editor tables from the new tree.
                let (info, item) = self.pipeline.collect_info(uri, &handed);
                self.info_by_id.insert(uri.clone(), info);
                self.item_by_id.insert(uri.clone(), item);
                Ok(handed)
            },
            Err(te) => {
                let wrapped = Error::Type { message: te.message, span: te.span };
                let handed = wrapped.duplicate();
                self.ast.insert(uri.clone(), Err(wrapped));
                Err(handed)
            },
        }
    }

    // Top-level orchestration.

    /// Ensures `uri`'s source is loaded, rebuilds the dependency graph
    /// over all known modules, and loads the checked tree, pulling in all
    /// transitive dependencies through the stage chain.
    pub fn load_module(&mut self, uri: &Url) -> (r: Result<Arc<P::Ast>, Error>)
        requires
            old(self).wf(),
        ensures
            final(self).wf(),
            r matches Ok(t) ==> fresh_at(final(self).ast_map(), uri@)
                && (final(self).ast_map()[uri@].value matches Ok(v) && v == t),
            r is Ok ==> crate::dependency_graph::acyclic(final(self).deps_map()),
            // a loaded module over a consistent graph loads again
            old(self).built() && fresh_at(old(self).files_map(), uri@) && fresh_at(
                old(self).ast_map(),
                uri@,
            ) && old(self).ast_map()[uri@].value is Ok ==> r is Ok,
            // no trusted artifact is changed or dropped along the way
            preserves_entries(old(self).files_map(), final(self).files_map()),
            preserves_entries(old(self).cst_map(), final(self).cst_map()),
            preserves_entries(old(self).symbol_table_map(), final(self).symbol_table_map()),
            preserves_entries(old(self).ust_map(), final(self).ust_map()),
            preserves_entries(old(self).type_info_map(), final(self).type_info_map()),
            preserves_entries(old(self).ast_map(), final(self).ast_map()),
            // a graph failure happens before any stage above parsing runs
            r matches Err(e) ==> ((e@ is ImportCycle || e@ is UrlResolution) ==> final(self).symbol_table_map() == old(self).symbol_table_map() && final(self).ust_map()
                == old(self).ust_map() && final(self).type_info_map() == old(self).type_info_map()
                && final(self).ast_map() == old(self).ast_map()),
            Self::same_source(*old(self), *final(self)),
    {
        let ghost pre = *old(self);
        let ghost h = pre.built() && fresh_at(pre.files_map(), uri@) && fresh_at(
            pre.ast_map(),
            uri@,
        ) && pre.ast_map()[uri@].value is Ok;
        match self.source(uri) {
            Ok(_) => {},
            Err(e) => {
                proof {
                    if h {
                        assert(false);
                    }
                }
                return Err(e);
            },
        }
        let ghost s1 = *self;
        match self.build_dependency_dag() {
            Ok(_) => {},
            Err(e) => {
                proof {
                    if h {
                        assert(s1 == pre);
                        assert(false);
                    }
                    lemma_preserves_trans(pre.files_map(), s1.files_map(), self.files_map());
                    lemma_preserves_trans(pre.cst_map(), s1.cst_map(), self.cst_map());
                }
                return Err(e);
            },
        }
        let ghost s2 = *self;
        proof {
            if h {
                assert(s1 == pre);
                assert(s2.ast_map() == pre.ast_map());
            }
        }
        let r = self.load_ast(uri);
        proof {
            self.lemma_deps_acyclic();
            lemma_preserves_trans(pre.files_map(), s1.files_map(), s2.files_map());
            lemma_preserves_trans(pre.files_map(), s2.files_map(), self.files_map());
            lemma_preserves_trans(pre.cst_map(), s1.cst_map(), s2.cst_map());
            lemma_preserves_trans(pre.cst_map(), s2.cst_map(), self.cst_map());
            lemma_preserves_trans(pre.symbol_table_map(), s2.symbol_table_map(), self.symbol_table_map());
            lemma_preserves_trans(pre.ust_map(), s2.ust_map(), self.ust_map());
            lemma_preserves_trans(pre.type_info_map(), s2.type_info_map(), self.type_info_map());
            lemma_preserves_trans(pre.ast_map(), s2.ast_map(), self.ast_map());
        }
        r
    }

    /// Rebuilds the dependency graph and eagerly loads the checked tree
    /// of every direct dependency of `module_uri`, but not deeper: the
    /// module's own checked tree and those of every other module are left
    /// alone.
    pub fn load_imports(&mut self, module_uri: &Url) -> (r: Result<(), Error>)
        requires
            old(self).wf(),
        ensures
            final(self).wf(),
            r is Ok ==> crate::dependency_graph::acyclic(final(self).deps_map()),
            r is Ok && final(self).deps_map().contains_key(module_uri@) ==> forall|d: Seq<char>|
                final(self).deps_map()[module_uri@].contains(d) ==> fresh_at(
                    final(self).ast_map(),
                    d,
                ) && final(self).ast_map()[d].value is Ok,
            // checked trees change only at the direct dependencies
            final(self).deps_map().contains_key(module_uri@) ==> agrees_outside(
                old(self).ast_map(),
                final(self).ast_map(),
                final(self).deps_map()[module_uri@].to_set(),
            ),
            !final(self).deps_map().contains_key(module_uri@) ==> final(self).ast_map() == old(self).ast_map(),
            // with the graph consistent and every direct dependency's
            // checked tree already trusted, nothing can fail and the
            // graph stands rebuilt and unchanged
            old(self).built() && old(self).imports_ready(module_uri@) ==> r is Ok && final(self).built() && final(self).deps_map() == old(self).deps_map(),
            preserves_entries(old(self).files_map(), final(self).files_map()),
            preserves_entries(old(self).cst_map(), final(self).cst_map()),
            preserves_entries(old(self).symbol_table_map(), final(self).symbol_table_map()),
            preserves_entries(old(self).ust_map(), final(self).ust_map()),
            preserves_entries(old(self).type_info_map(), final(self).type_info_map()),
            preserves_entries(old(self).ast_map(), final(self).ast_map()),
            // a graph failure happens before any stage above parsing runs
            r matches Err(e) ==> ((e@ is ImportCycle || e@ is UrlResolution) ==> final(self).symbol_table_map() == old(self).symbol_table_map() && final(self).ust_map()
                == old(self).ust_map() && final(self).type_info_map() == old(self).type_info_map()
                && final(self).ast_map() == old(self).ast_map()),
            Self::same_source(*old(self), *final(self)),
    {
        let ghost pre = *old(self);
        let ghost h = pre.built() && pre.imports_ready(module_uri@);
        match self.build_dependency_dag() {
            Ok(_) => {},
            Err(e) => {
                proof {
                    if h {
                        assert(false);
                    }
                }
                return Err(e);
            },
        }
        let ghost s1 = *self;
        let direct_deps = match self.deps.get(module_uri) {
            Some(d) => clone_urls(d),
            None => Vec::new(),
        };
        let ghost deps_known = self.deps_map().contains_key(module_uri@);
        let ghost dm = self.deps_map();
        proof {
            if h {
                assert(dm == pre.deps_map());
                assert(s1.ast_map() == pre.ast_map());
                assert(s1.files_map() == pre.files_map());
                assert(s1.cst_map() == pre.cst_map());
                assert(s1.built());
            }
        }
        let mut i: usize = 0;
        while i < direct_deps.len()
            invariant
                self.wf(),
                i <= direct_deps@.len(),
                pre == *old(self),
                h == (pre.built() && pre.imports_ready(module_uri@)),
                dm == self.deps_map(),
                deps_known ==> direct_deps.deep_view() == dm[module_uri@],
                deps_known == dm.contains_key(module_uri@),
                !deps_known ==> direct_deps@.len() == 0,
                h ==> dm == pre.deps_map() && self.ast_map() == pre.ast_map() && *self == s1
                    && s1.built(),
                forall|j: int|
                    0 <= j < i ==> fresh_at(self.ast_map(), #[trigger] direct_deps.deep_view()[j])
                        && self.ast_map()[direct_deps.deep_view()[j]].value is Ok,
                deps_known ==> agrees_outside(
                    old(self).ast_map(),
                    self.ast_map(),
                    dm[module_uri@].to_set(),
                ),
                !deps_known ==> self.ast_map() == old(self).ast_map(),
                preserves_entries(old(self).files_map(), self.files_map()),
                preserves_entries(old(self).cst_map(), self.cst_map()),
                preserves_entries(old(self).symbol_table_map(), self.symbol_table_map()),
                preserves_entries(old(self).ust_map(), self.ust_map()),
                preserves_entries(old(self).type_info_map(), self.type_info_map()),
                preserves_entries(old(self).ast_map(), self.ast_map()),
                Self::same_source(*old(self), *self),
            decreases direct_deps@.len() - i,
        {
            let dep = &direct_deps[i];
            let ghost am = self.ast_map();
            let ghost sm = *self;
            proof {
                assert(deps_known);
                if h {
                    assert(direct_deps.deep_view()[i as int] == dep@);
                    assert(dm.contains_key(module_uri@));
                    assert(dm[module_uri@].contains(dep@));
                    assert(pre.deps_map()[module_uri@].contains(dep@));
                    assert(fresh_at(pre.ast_map(), dep@));
                    assert(fresh_at(sm.ast_map(), dep@));
                }
            }
            let outcome = self.load_ast(dep);
            proof {
                lemma_preserves_trans(old(self).files_map(), sm.files_map(), self.files_map());
                lemma_preserves_trans(old(self).cst_map(), sm.cst_map(), self.cst_map());
                lemma_preserves_trans(
                    old(self).symbol_table_map(),
                    sm.symbol_table_map(),
                    self.symbol_table_map(),
                );
                lemma_preserves_trans(old(self).ust_map(), sm.ust_map(), self.ust_map());
                lemma_preserves_trans(
                    old(self).type_info_map(),
                    sm.type_info_map(),
                    self.type_info_map(),
                );
                lemma_preserves_trans(old(self).ast_map(), sm.ast_map(), self.ast_map());
                assert(direct_deps.deep_view()[i as int] == dep@);
                if deps_known {
                    assert(dm[module_uri@].to_set().contains(dep@)) by {
                        assert(dm[module_uri@].contains(dep@));
                    }
                    lemma_agrees_widen(
                        sm.ast_map(),
                        self.ast_map(),
                        set![dep@],
                        dm[module_uri@].to_set(),
                    );
                    lemma_agrees_trans(
                        old(self).ast_map(),
                        sm.ast_map(),
                        self.ast_map(),
                        dm[module_uri@].to_set(),
                    );
                }
            }
            match outcome {
                Ok(_) => {},
                Err(e) => {
                    proof {
                        if h {
                            assert(false);
                        }
                    }
                    return Err(e);
                },
            }
            proof {
                assert forall|j: int|
                    0 <= j < i + 1 implies fresh_at(
                    self.ast_map(),
                    #[trigger] direct_deps.deep_view()[j],
                ) && self.ast_map()[direct_deps.deep_view()[j]].value is Ok by {
                    if j < i {
                        assert(fresh_at(am, direct_deps.deep_view()[j]));
                    }
                }
            }
            i = i + 1;
        }
        proof {
            self.lemma_deps_acyclic();
        }
        Ok(())
    }

    // Invalidation.

    /// What a cache looks like after marking one identifier stale.
    pub open spec fn invalidated<V>(
        m: Map<Seq<char>, CacheEntry<V>>,
        k: Seq<char>,
    ) -> Map<Seq<char>, CacheEntry<V>> {
        if m.contains_key(k) {
            m.insert(k, CacheEntry { value: m[k].value, stale: true })
        } else {
            m
        }
    }

    /// Marking one identifier stale removes nothing and changes no value.
    proof fn lemma_invalidated_keeps_values<V>(pre: Map<Seq<char>, CacheEntry<V>>, k0: Seq<char>)
        ensures
            same_entries_values(pre, Self::invalidated(pre, k0)),
    {
    }

    /// Marks every per-stage entry for `uri` stale, removing none.
    fn invalidate_impl(&mut self, uri: &Url)
        requires
            old(self).wf(),
        ensures
            final(self).wf(),
            final(self).files_map() == Self::invalidated(old(self).files_map(), uri@),
            final(self).cst_map() == Self::invalidated(old(self).cst_map(), uri@),
            final(self).symbol_table_map() == Self::invalidated(
                old(self).symbol_table_map(),
                uri@,
            ),
            final(self).ust_map() == Self::invalidated(old(self).ust_map(), uri@),
            final(self).ast_map() == Self::invalidated(old(self).ast_map(), uri@),
            final(self).type_info_map() == Self::invalidated(old(self).type_info_map(), uri@),
            final(self).info_map() == Self::invalidated(old(self).info_map(), uri@),
            final(self).item_map() == Self::invalidated(old(self).item_map(), uri@),
            final(self).files_keys() == old(self).files_keys(),
            Self::same_deps(*old(self), *final(self)),
            Self::same_source(*old(self), *final(self)),
            final(self).pipe() == old(self).pipe(),
    {
        self.files.invalidate(uri);
        self.cst.invalidate(uri);
        self.symbol_table.invalidate(uri);
        self.ust.invalidate(uri);
        self.ast.invalidate(uri);
        self.type_info_table.invalidate(uri);
        self.info_by_id.invalidate(uri);
        self.item_by_id.invalidate(uri);
        proof {
            assert forall|k: Seq<char>| #[trigger] self.cst@.contains_key(k) implies self.files@
                .contains_key(k) by {
                assert(old(self).cst@.contains_key(k));
                assert(old(self).files@.contains_key(k));
            }
            assert forall|k: Seq<char>| #[trigger] fresh_at(self.cst@, k) implies fresh_at(
                self.files@,
                k,
            ) by {
                assert(k != uri@ || !fresh_at(self.cst@, k));
                assert(fresh_at(old(self).cst@, k));
                assert(fresh_at(old(self).files@, k));
            }
            assert forall|k: Seq<char>| #[trigger] fresh_at(self.symbol_table@, k) implies fresh_at(
                self.cst@,
                k,
            ) && self.cst@[k].value is Ok by {
                assert(k != uri@ || !fresh_at(self.symbol_table@, k));
                assert(fresh_at(old(self).symbol_table@, k));
                assert(fresh_at(old(self).cst@, k));
                assert(k != uri@);
                assert(self.cst@[k] == old(self).cst@[k]);
            }
            assert forall|k: Seq<char>| #[trigger] self.cst@.contains_key(k) implies match self
                .cst@[k].value {
                Ok(_) => true,
                Err(e) => e@ matches ErrorView::Parser { uri, .. } && uri == k,
            } by {
                assert(old(self).cst@.contains_key(k));
                assert(self.cst@[k].value == old(self).cst@[k].value);
            }
            assert forall|k: Seq<char>| #[trigger] self.ust@.contains_key(k) implies match self
                .ust@[k].value {
                Ok(_) => true,
                Err(e) => e@ is Lowering,
            } by {
                assert(old(self).ust@.contains_key(k));
                assert(self.ust@[k].value == old(self).ust@[k].value);
            }
            assert forall|k: Seq<char>| #[trigger] self.ast@.contains_key(k) implies match self
                .ast@[k].value {
                Ok(_) => true,
                Err(e) => e@ is Type,
            } by {
                assert(old(self).ast@.contains_key(k));
                assert(self.ast@[k].value == old(self).ast@[k].value);
            }
        }
    }

    /// Invalidates the module behind `uri` and every module whose
    /// direct-or-transitive dependency list contains it: marks their
    /// per-stage entries stale, rebuilds the full dependency graph (the
    /// edit may have changed import declarations), and computes the
    /// reverse dependents against the rebuilt graph.
    pub fn invalidate(&mut self, uri: &Url) -> (r: Result<(), Error>)
        requires
            old(self).wf(),
        ensures
            final(self).wf(),
            r is Ok ==> crate::dependency_graph::acyclic(final(self).deps_map()),
            // the module's own derived artifacts are distrusted whether or
            // not the graph rebuild went through
            stale_or_absent(final(self).symbol_table_map(), uri@),
            stale_or_absent(final(self).ust_map(), uri@),
            stale_or_absent(final(self).ast_map(), uri@),
            stale_or_absent(final(self).type_info_map(), uri@),
            stale_or_absent(final(self).info_map(), uri@),
            stale_or_absent(final(self).item_map(), uri@),
            // the graph rebuild re-reads and re-parses the edited module
            r is Ok && old(self).files_map().contains_key(uri@) ==> fresh_at(
                final(self).files_map(),
                uri@,
            ) && fresh_at(final(self).cst_map(), uri@) && final(self).cst_map()[uri@].value is Ok,
            r is Ok ==> forall|m: Seq<char>|
                crate::dependency_graph::depends_on(final(self).deps_map(), m, uri@)
                    ==> #[trigger] Self::all_stages_stale(*final(self), m),
            // and nothing else is invalidated
            r is Ok ==> forall|m: Seq<char>|
                m != uri@ && !crate::dependency_graph::depends_on(final(self).deps_map(), m, uri@)
                    ==> #[trigger] Self::untouched_by_invalidation(*old(self), *final(self), m),
            // a failure can only come from the graph rebuild, and then the
            // old graph stands
            r is Err ==> final(self).deps_map() == old(self).deps_map(),
            r matches Err(e) ==> (e@ is Parser || e@ is NotFound || e@ is Io || e@ is ImportCycle
                || e@ is UrlResolution),
            // an identifier the database does not track cannot make the
            // rebuild of a consistent graph fail
            old(self).built() && !old(self).files_map().contains_key(uri@) ==> r is Ok,
            // distrusted artifacts are retained for best-effort reads
            same_entries_values(old(self).symbol_table_map(), final(self).symbol_table_map()),
            same_entries_values(old(self).ust_map(), final(self).ust_map()),
            same_entries_values(old(self).ast_map(), final(self).ast_map()),
            same_entries_values(old(self).type_info_map(), final(self).type_info_map()),
            same_entries_values(old(self).info_map(), final(self).info_map()),
            same_entries_values(old(self).item_map(), final(self).item_map()),
            Self::same_source(*old(self), *final(self)),
    {
        let ghost pre = *old(self);
        let ghost h2 = pre.built() && !pre.files_map().contains_key(uri@);
        self.invalidate_impl(uri);
        let ghost mid = *self;
        proof {
            if h2 {
                assert(!pre.cst_map().contains_key(uri@));
                assert(mid.files_map() == pre.files_map());
                assert(mid.cst_map() == pre.cst_map());
                assert(mid.built());
            }
        }
        match self.build_dependency_dag() {
            Ok(_) => {},
            Err(e) => {
                proof {
                    if h2 {
                        assert(false);
                    }
                }
                return Err(e);
            },
        }
        let ghost dm = self.deps_map();
        proof {
            self.lemma_deps_acyclic();
            // after a successful rebuild the edited module, if tracked,
            // stands re-read and re-parsed
            if pre.files_map().contains_key(uri@) {
                assert(mid.files_map().contains_key(uri@));
                assert(self.files_map().contains_key(uri@));
                assert(self.built());
                assert(self.deps_map().contains_key(uri@));
                assert(self.cst_resolves_to(uri@, self.deps_map()[uri@]));
            }
            // modules other than the edited one are untouched so far
            assert forall|m: Seq<char>| m != uri@ implies #[trigger] Self::untouched_by_invalidation(
                pre,
                *self,
                m,
            ) by {
                assert(entry_unchanged(pre.symbol_table_map(), mid.symbol_table_map(), m));
                assert(entry_unchanged(pre.ust_map(), mid.ust_map(), m));
                assert(entry_unchanged(pre.ast_map(), mid.ast_map(), m));
                assert(entry_unchanged(pre.type_info_map(), mid.type_info_map(), m));
                assert(entry_unchanged(pre.info_map(), mid.info_map(), m));
                assert(entry_unchanged(pre.item_map(), mid.item_map(), m));
                if fresh_at(pre.files_map(), m) {
                    assert(mid.files_map()[m] == pre.files_map()[m]);
                    assert(fresh_at(mid.files_map(), m));
                }
                if fresh_at(pre.cst_map(), m) {
                    assert(mid.cst_map()[m] == pre.cst_map()[m]);
                    assert(fresh_at(mid.cst_map(), m));
                }
            }
        }
        let rev_deps = self.deps.reverse_dependencies(uri);
        proof {
            assert(self.deps_map() == dm);
            if h2 {
                // in a consistent graph no recorded import names an
                // untracked module, so nothing depends on it
                assert forall|a: Seq<char>| !crate::dependency_graph::step(dm, a, uri@) by {
                    if crate::dependency_graph::step(dm, a, uri@) {
                        assert(dm.contains_key(uri@));
                        assert(self.built());
                        assert(self.files_map().contains_key(uri@));
                        assert(mid.files_map().contains_key(uri@));
                    }
                }
                crate::dependency_graph::lemma_no_edge_no_dependents(dm, uri@);
                assert(rev_deps@.len() == 0) by {
                    if rev_deps@.len() > 0 {
                        assert(rev_deps.deep_view().contains(rev_deps.deep_view()[0]));
                    }
                }
            }
        }
        let mut i: usize = 0;
        while i < rev_deps.len()
            invariant
                self.wf(),
                i <= rev_deps@.len(),
                dm == self.deps_map(),
                forall|m: Seq<char>|
                    rev_deps.deep_view().contains(m) <==> crate::dependency_graph::depends_on(
                        dm,
                        m,
                        uri@,
                    ),
                stale_or_absent(self.symbol_table_map(), uri@),
                stale_or_absent(self.ust_map(), uri@),
                stale_or_absent(self.ast_map(), uri@),
                stale_or_absent(self.type_info_map(), uri@),
                stale_or_absent(self.info_map(), uri@),
                stale_or_absent(self.item_map(), uri@),
                crate::dependency_graph::acyclic(dm),
                old(self).files_map().contains_key(uri@) ==> fresh_at(self.files_map(), uri@)
                    && fresh_at(self.cst_map(), uri@) && self.cst_map()[uri@].value is Ok,
                forall|m: Seq<char>|
                    m != uri@ && !rev_deps.deep_view().contains(m)
                        ==> #[trigger] Self::untouched_by_invalidation(*old(self), *self, m),
                forall|j: int|
                    0 <= j < i ==> Self::all_stages_stale(*self, #[trigger] rev_deps.deep_view()[j]),
                same_entries_values(old(self).symbol_table_map(), self.symbol_table_map()),
                same_entries_values(old(self).ust_map(), self.ust_map()),
                same_entries_values(old(self).ast_map(), self.ast_map()),
                same_entries_values(old(self).type_info_map(), self.type_info_map()),
                same_entries_values(old(self).info_map(), self.info_map()),
                same_entries_values(old(self).item_map(), self.item_map()),
                Self::same_source(*old(self), *self),
            decreases rev_deps@.len() - i,
        {
            let m = &rev_deps[i];
            let ghost snap = *self;
            self.invalidate_impl(m);
            proof {
                Self::lemma_invalidated_keeps_values(snap.symbol_table_map(), m@);
                lemma_values_trans(
                    old(self).symbol_table_map(),
                    snap.symbol_table_map(),
                    self.symbol_table_map(),
                );
                Self::lemma_invalidated_keeps_values(snap.ust_map(), m@);
                lemma_values_trans(old(self).ust_map(), snap.ust_map(), self.ust_map());
                Self::lemma_invalidated_keeps_values(snap.ast_map(), m@);
                lemma_values_trans(old(self).ast_map(), snap.ast_map(), self.ast_map());
                Self::lemma_invalidated_keeps_values(snap.type_info_map(), m@);
                lemma_values_trans(
                    old(self).type_info_map(),
                    snap.type_info_map(),
                    self.type_info_map(),
                );
                Self::lemma_invalidated_keeps_values(snap.info_map(), m@);
                lemma_values_trans(old(self).info_map(), snap.info_map(), self.info_map());
                Self::lemma_invalidated_keeps_values(snap.item_map(), m@);
                lemma_values_trans(old(self).item_map(), snap.item_map(), self.item_map());
                assert(rev_deps.deep_view()[i as int] == m@);
                assert(rev_deps.deep_view().contains(m@));
                assert(m@ != uri@) by {
                    if m@ == uri@ {
                        assert(crate::dependency_graph::depends_on(dm, uri@, uri@));
                    }
                }
                assert(Self::all_stages_stale(*self, m@));
                assert forall|j: int|
                    0 <= j < i implies Self::all_stages_stale(
                    *self,
                    #[trigger] rev_deps.deep_view()[j],
                ) by {
                    assert(Self::all_stages_stale(snap, rev_deps.deep_view()[j]));
                }
                assert forall|x: Seq<char>|
                    x != uri@ && !rev_deps.deep_view().contains(
                        x,
                    ) implies #[trigger] Self::untouched_by_invalidation(*old(self), *self, x) by {
                    assert(Self::untouched_by_invalidation(*old(self), snap, x));
                    assert(x != m@);
                }
            }
            i = i + 1;
        }
        proof {
            assert forall|m: Seq<char>|
                crate::dependency_graph::depends_on(
                    self.deps_map(),
                    m,
                    uri@,
                ) implies #[trigger] Self::all_stages_stale(*self, m) by {
                assert(rev_deps.deep_view().contains(m));
                let j = choose|j: int|
                    0 <= j < rev_deps.deep_view().len() && rev_deps.deep_view()[j] == m;
                assert(Self::all_stages_stale(*self, rev_deps.deep_view()[j]));
            }
            self.lemma_deps_acyclic();
        }
        Ok(())
    }

    /// Invalidation of some other module left `m` alone: every derived
    /// entry of `m` is untouched, and its trusted source and parse entries
    /// stay trusted and unchanged.  (A source or parse entry of `m` that
    /// was already stale may still be refreshed by the graph rebuild.)
    pub open spec fn untouched_by_invalidation(pre: Self, post: Self, m: Seq<char>) -> bool {
        &&& entry_unchanged(pre.symbol_table_map(), post.symbol_table_map(), m)
        &&& entry_unchanged(pre.ust_map(), post.ust_map(), m)
        &&& entry_unchanged(pre.ast_map(), post.ast_map(), m)
        &&& entry_unchanged(pre.type_info_map(), post.type_info_map(), m)
        &&& entry_unchanged(pre.info_map(), post.info_map(), m)
        &&& entry_unchanged(pre.item_map(), post.item_map(), m)
        &&& (fresh_at(pre.files_map(), m) ==> post.files_map().contains_key(m)
            && post.files_map()[m] == pre.files_map()[m])
        &&& (fresh_at(pre.cst_map(), m) ==> post.cst_map().contains_key(m) && post.cst_map()[m]
            == pre.cst_map()[m])
    }

    /// Every per-stage entry of `m` is marked stale, or absent.
    pub open spec fn all_stages_stale(db: Self, m: Seq<char>) -> bool {
        &&& stale_or_absent(db.files_map(), m)
        &&& stale_or_absent(db.cst_map(), m)
        &&& stale_or_absent(db.symbol_table_map(), m)
        &&& stale_or_absent(db.ust_map(), m)
        &&& stale_or_absent(db.ast_map(), m)
        &&& stale_or_absent(db.type_info_map(), m)
        &&& stale_or_absent(db.info_map(), m)
        &&& stale_or_absent(db.item_map(), m)
    }

    /// Invalidates `uri` (which cascades to its reverse dependents), then
    /// stores the new text with the source provider, so that the next
    /// demand after a further invalidation recomputes from it.
    pub fn write_source(&mut self, uri: &Url, source: &str) -> (r: Result<(), Error>)
        requires
            old(self).wf(),
        ensures
            final(self).wf(),
            // the module's derived artifacts are distrusted whether or not
            // the rebuild or the store went through
            stale_or_absent(final(self).symbol_table_map(), uri@),
            stale_or_absent(final(self).ust_map(), uri@),
            stale_or_absent(final(self).ast_map(), uri@),
            stale_or_absent(final(self).type_info_map(), uri@),
            stale_or_absent(final(self).info_map(), uri@),
            stale_or_absent(final(self).item_map(), uri@),
            r is Ok ==> final(self).src_modules().contains(uri@) && final(self).src_contents()[uri@] == source@,
            // the cascade of the invalidation stands
            r is Ok ==> forall|m: Seq<char>|
                crate::dependency_graph::depends_on(final(self).deps_map(), m, uri@)
                    ==> #[trigger] Self::all_stages_stale(*final(self), m),
            // distrusted artifacts are retained for best-effort reads
            same_entries_values(old(self).symbol_table_map(), final(self).symbol_table_map()),
            same_entries_values(old(self).ust_map(), final(self).ust_map()),
            same_entries_values(old(self).ast_map(), final(self).ast_map()),
            same_entries_values(old(self).type_info_map(), final(self).type_info_map()),
            same_entries_values(old(self).info_map(), final(self).info_map()),
            same_entries_values(old(self).item_map(), final(self).item_map()),
            // a failure comes from the rebuild or from the store, and then
            // the provider's catalogue is unchanged
            r matches Err(e) ==> (e@ is Parser || e@ is NotFound || e@ is Io || e@ is ImportCycle
                || e@ is UrlResolution),
            r is Err ==> Self::same_source(*old(self), *final(self)),
    {
        match self.invalidate(uri) {
            Ok(_) => {},
            Err(e) => {
                return Err(e);
            },
        }
        let ghost mid = *self;
        let outcome = self.source.write_string(uri, source);
        proof {
            assert forall|m: Seq<char>|
                crate::dependency_graph::depends_on(
                    self.deps_map(),
                    m,
                    uri@,
                ) implies #[trigger] Self::all_stages_stale(*self, m) by {
                assert(Self::all_stages_stale(mid, m));
            }
        }
        match outcome {
            Ok(_) => Ok(()),
            Err(SourceError::NotFound { uri }) => Err(Error::NotFound { uri }),
            Err(SourceError::Io { uri, message }) => Err(Error::Io { uri, message }),
        }
    }

    /// The tracked identifiers are exactly the keys of the source cache.
    proof fn lemma_files_keys_dom(&self)
        ensures
            forall|k: Seq<char>| self.files_map().contains_key(k) <==> self.files_keys().contains(
                k,
            ),
    {
        self.files.lemma_key_seq_dom();
    }

    /// Resolves a module reference against the importing module's
    /// identifier, by relative-URL-join semantics.
    fn resolve_module_name(&self, name: &str, current_module: &Url) -> (r: Result<Url, Error>)
        ensures
            match r {
                Ok(u) => join_of(current_module@, name@) == Some(u@),
                Err(e) => join_of(current_module@, name@) is None && (e@ matches
                    ErrorView::UrlResolution { base, reference } && base == current_module@
                    && reference == name@),
            },
    {
        match join_url(current_module, name) {
            Some(u) => Ok(u),
            None => Err(
                Error::UrlResolution {
                    base: current_module.clone(),
                    reference: <String as StringExecFns>::from_str(name),
                },
            ),
        }
    }
}

} // verus!
