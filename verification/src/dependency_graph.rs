use vstd::prelude::*;

use crate::uri::Url;

verus! {

/// A direct import edge of the graph `g`: module `a` names module `b` in
/// one of its import declarations.
pub open spec fn step(g: Map<Seq<char>, Seq<Seq<char>>>, a: Seq<char>, b: Seq<char>) -> bool {
    g.contains_key(a) && g[a].contains(b)
}

/// A path of exactly `n` import edges from `a` to `b`.
pub open spec fn reaches_n(
    g: Map<Seq<char>, Seq<Seq<char>>>,
    a: Seq<char>,
    b: Seq<char>,
    n: nat,
) -> bool
    decreases n,
{
    if n == 0 {
        a == b
    } else {
        exists|m: Seq<char>| #[trigger] step(g, a, m) && reaches_n(g, m, b, (n - 1) as nat)
    }
}

/// Module `b` occurs in module `a`'s direct-or-transitive dependency list.
pub open spec fn depends_on(
    g: Map<Seq<char>, Seq<Seq<char>>>,
    a: Seq<char>,
    b: Seq<char>,
) -> bool {
    exists|n: nat| n >= 1 && reaches_n(g, a, b, n)
}

/// No module depends on itself.
pub open spec fn acyclic(g: Map<Seq<char>, Seq<Seq<char>>>) -> bool {
    forall|m: Seq<char>| !depends_on(g, m, m)
}

/// One direct edge is a dependency.
pub proof fn lemma_step_is_dependency(
    g: Map<Seq<char>, Seq<Seq<char>>>,
    a: Seq<char>,
    b: Seq<char>,
)
    requires
        step(g, a, b),
    ensures
        depends_on(g, a, b),
{
    assert(reaches_n(g, b, b, 0));
    assert(reaches_n(g, a, b, 1));
}

/// An edge into a dependent module yields a dependency.
pub proof fn lemma_step_then_dependency(
    g: Map<Seq<char>, Seq<Seq<char>>>,
    a: Seq<char>,
    m: Seq<char>,
    b: Seq<char>,
)
    requires
        step(g, a, m),
        depends_on(g, m, b),
    ensures
        depends_on(g, a, b),
{
    let n = choose|n: nat| n >= 1 && reaches_n(g, m, b, n);
    assert(reaches_n(g, a, b, (n + 1) as nat));
}

/// A module no edge points to has no dependents.
pub proof fn lemma_no_edge_no_dependents(g: Map<Seq<char>, Seq<Seq<char>>>, b: Seq<char>)
    requires
        forall|a: Seq<char>| !step(g, a, b),
    ensures
        forall|a: Seq<char>| !depends_on(g, a, b),
{
    assert forall|a: Seq<char>| !depends_on(g, a, b) by {
        if depends_on(g, a, b) {
            let n = choose|n: nat| n >= 1 && reaches_n(g, a, b, n);
            lemma_no_edge_no_reach(g, b, a, n);
        }
    }
}

proof fn lemma_no_edge_no_reach(g: Map<Seq<char>, Seq<Seq<char>>>, b: Seq<char>, a: Seq<char>, n: nat)
    requires
        forall|x: Seq<char>| !step(g, x, b),
        n >= 1,
    ensures
        !reaches_n(g, a, b, n),
    decreases n,
{
    if reaches_n(g, a, b, n) {
        let m = choose|m: Seq<char>| #[trigger] step(g, a, m) && reaches_n(g, m, b, (n - 1) as nat);
        if n == 1 {
            assert(m == b);
            assert(step(g, a, b));
        } else {
            lemma_no_edge_no_reach(g, b, m, (n - 1) as nat);
        }
    }
}

/// The module dependency graph: each tracked module's direct imports, in
/// import-declaration order, duplicates permitted.
pub struct DependencyGraph {
    entries: Vec<(Url, Vec<Url>)>,
}

impl DependencyGraph {
    /// The recorded edges: module identifier to its ordered direct imports.
    pub closed spec fn view(&self) -> Map<Seq<char>, Seq<Seq<char>>> {
        Self::map_of(self.entries@)
    }

    /// The tracked identifiers, in first-insertion order.
    pub closed spec fn key_seq(&self) -> Seq<Seq<char>> {
        Self::keys_of(self.entries@)
    }

    /// Each module is tracked at most once.
    pub closed spec fn wf(&self) -> bool {
        Self::distinct_keys(self.entries@)
    }

    /// The insertion order is a reverse topological order: every recorded
    /// module's imports were recorded before it.
    pub closed spec fn topo_ord(&self) -> bool {
        forall|i: int, j: int|
            0 <= i < self.entries@.len() && 0 <= j < self.entries@[i].1@.len()
                ==> Self::keys_of(self.entries@).take(i).contains(#[trigger] self.entries@[i].1@[j]@)
    }

    pub closed spec fn map_of(s: Seq<(Url, Vec<Url>)>) -> Map<Seq<char>, Seq<Seq<char>>>
        decreases s.len(),
    {
        if s.len() == 0 {
            Map::empty()
        } else {
            Self::map_of(s.drop_last()).insert(s.last().0@, s.last().1.deep_view())
        }
    }

    pub closed spec fn keys_of(s: Seq<(Url, Vec<Url>)>) -> Seq<Seq<char>> {
        s.map_values(|e: (Url, Vec<Url>)| e.0@)
    }

    pub closed spec fn distinct_keys(s: Seq<(Url, Vec<Url>)>) -> bool {
        forall|i: int, j: int| 0 <= i < j < s.len() ==> s[i].0@ != s[j].0@
    }

    proof fn lemma_map_of_dom(s: Seq<(Url, Vec<Url>)>)
        ensures
            forall|k: Seq<char>|
                Self::map_of(s).contains_key(k) <==> exists|i: int|
                    0 <= i < s.len() && s[i].0@ == k,
        decreases s.len(),
    {
        if s.len() > 0 {
            Self::lemma_map_of_dom(s.drop_last());
            assert(Self::map_of(s) == Self::map_of(s.drop_last()).insert(
                s.last().0@,
                s.last().1.deep_view(),
            ));
            assert forall|k: Seq<char>| #[trigger] Self::map_of(s).contains_key(k) implies exists|
                i: int,
            | 0 <= i < s.len() && s[i].0@ == k by {
                if s.last().0@ == k {
                    assert(s[s.len() - 1].0@ == k);
                } else {
                    assert(Self::map_of(s.drop_last()).contains_key(k));
                    let i = choose|i: int| 0 <= i < s.drop_last().len() && s.drop_last()[i].0@ == k;
                    assert(s.drop_last()[i] == s[i]);
                    assert(s[i].0@ == k);
                }
            }
            assert forall|k: Seq<char>| (exists|i: int| 0 <= i < s.len() && s[i].0@ == k) implies #[trigger] Self::map_of(
                s,
            ).contains_key(k) by {
                let i = choose|i: int| 0 <= i < s.len() && s[i].0@ == k;
                if i < s.len() - 1 {
                    assert(s.drop_last()[i].0@ == k);
                }
            }
        }
    }

    proof fn lemma_map_of_index(s: Seq<(Url, Vec<Url>)>, i: int)
        requires
            Self::distinct_keys(s),
            0 <= i < s.len(),
        ensures
            Self::map_of(s).contains_key(s[i].0@),
            Self::map_of(s)[s[i].0@] == s[i].1.deep_view(),
        decreases s.len(),
    {
        Self::lemma_map_of_dom(s);
        if i < s.len() - 1 {
            assert(s[i].0@ != s.last().0@);
            assert(s.drop_last()[i] == s[i]);
            Self::lemma_map_of_index(s.drop_last(), i);
        }
    }

    /// A tracked identifier is exactly one that occurs in `key_seq`.
    pub proof fn lemma_key_seq_dom(&self)
        ensures
            forall|k: Seq<char>| self@.contains_key(k) <==> self.key_seq().contains(k),
    {
        Self::lemma_map_of_dom(self.entries@);
        assert forall|k: Seq<char>| self@.contains_key(k) <==> self.key_seq().contains(k) by {
            if self@.contains_key(k) {
                let i = choose|i: int| 0 <= i < self.entries@.len() && self.entries@[i].0@ == k;
                assert(self.key_seq()[i] == k);
            }
            if self.key_seq().contains(k) {
                let i = choose|i: int| 0 <= i < self.key_seq().len() && self.key_seq()[i] == k;
                assert(self.entries@[i].0@ == k);
            }
        }
    }

    pub fn new() -> (r: DependencyGraph)
        ensures
            r@ == Map::<Seq<char>, Seq<Seq<char>>>::empty(),
            r.key_seq() == Seq::<Seq<char>>::empty(),
            r.wf(),
            r.topo_ord(),
    {
        let r = DependencyGraph { entries: Vec::new() };
        proof {
            assert(r.key_seq() =~= Seq::<Seq<char>>::empty());
        }
        r
    }

    fn find(&self, uri: &Url) -> (r: Option<usize>)
        ensures
            match r {
                Some(i) => i < self.entries@.len() && self.entries@[i as int].0@ == uri@,
                None => forall|i: int| 0 <= i < self.entries@.len() ==> self.entries@[i].0@ != uri@,
            },
    {
        let mut i: usize = 0;
        while i < self.entries.len()
            invariant
                i <= self.entries@.len(),
                forall|j: int| 0 <= j < i ==> self.entries@[j].0@ != uri@,
            decreases self.entries@.len() - i,
        {
            if self.entries[i].0 == *uri {
                return Some(i);
            }
            i = i + 1;
        }
        None
    }

    /// The direct dependencies recorded for `uri`, or none if `uri` is
    /// unknown to the graph.
    pub fn get(&self, uri: &Url) -> (r: Option<&Vec<Url>>)
        requires
            self.wf(),
        ensures
            match r {
                Some(d) => self@.contains_key(uri@) && d.deep_view() == self@[uri@],
                None => !self@.contains_key(uri@),
            },
    {
        proof {
            Self::lemma_map_of_dom(self.entries@);
        }
        match self.find(uri) {
            Some(i) => {
                proof {
                    Self::lemma_map_of_index(self.entries@, i as int);
                }
                Some(&self.entries[i].1)
            },
            None => None,
        }
    }

    /// Records `deps` as the dependency list for `uri`, replacing any
    /// earlier list.  Recording a module whose imports are all already
    /// recorded keeps the reverse topological order.
    pub fn insert(&mut self, uri: Url, deps: Vec<Url>)
        requires
            old(self).wf(),
        ensures
            final(self).wf(),
            final(self)@ == old(self)@.insert(uri@, deps.deep_view()),
            final(self).key_seq() == if old(self)@.contains_key(uri@) {
                old(self).key_seq()
            } else {
                old(self).key_seq().push(uri@)
            },
            old(self).topo_ord() && !old(self)@.contains_key(uri@) && (forall|j: int|
                0 <= j < deps@.len() ==> old(self)@.contains_key(#[trigger] deps@[j]@))
                ==> final(self).topo_ord(),
    {
        proof {
            Self::lemma_map_of_dom(self.entries@);
        }
        match self.find(&uri) {
            Some(i) => {
                let _ = self.entries.remove(i);
                self.entries.insert(i, (uri, deps));
                proof {
                    let olds = old(self).entries@;
                    let news = self.entries@;
                    assert(news =~= olds.update(i as int, news[i as int]));
                    Self::lemma_update_same_key(olds, i as int, news[i as int]);
                }
            },
            None => {
                self.entries.push((uri, deps));
                proof {
                    let olds = old(self).entries@;
                    let news = self.entries@;
                    assert(news.drop_last() =~= olds);
                    assert(final(self).key_seq() =~= old(self).key_seq().push(news.last().0@));
                    if old(self).topo_ord() && (forall|j: int|
                        0 <= j < deps@.len() ==> old(self)@.contains_key(#[trigger] deps@[j]@)) {
                        old(self).lemma_key_seq_dom();
                        let n = olds.len() as int;
                        assert forall|i: int, j: int|
                            0 <= i < news.len() && 0 <= j < news[i].1@.len() implies Self::keys_of(
                            news,
                        ).take(i).contains(#[trigger] news[i].1@[j]@) by {
                            if i < n {
                                assert(news[i] == olds[i]);
                                assert(Self::keys_of(olds).take(i).contains(olds[i].1@[j]@));
                                assert(Self::keys_of(news).take(i) =~= Self::keys_of(olds).take(i));
                            } else {
                                assert(news[i].1 == deps);
                                assert(news[i].1@[j]@ == deps.deep_view()[j]);
                                assert(old(self)@.contains_key(deps@[j]@));
                                assert(old(self).key_seq().contains(deps@[j]@));
                                assert(Self::keys_of(news).take(i) =~= Self::keys_of(olds));
                            }
                        }
                    }
                }
            },
        }
    }

    proof fn lemma_update_same_key(s: Seq<(Url, Vec<Url>)>, i: int, e: (Url, Vec<Url>))
        requires
            Self::distinct_keys(s),
            0 <= i < s.len(),
            e.0@ == s[i].0@,
        ensures
            Self::distinct_keys(s.update(i, e)),
            Self::map_of(s.update(i, e)) == Self::map_of(s).insert(e.0@, e.1.deep_view()),
            Self::keys_of(s.update(i, e)) == Self::keys_of(s),
        decreases s.len(),
    {
        let t = s.update(i, e);
        assert(Self::keys_of(t) =~= Self::keys_of(s));
        if i == s.len() - 1 {
            assert(t.drop_last() =~= s.drop_last());
            assert(t.last() == e);
            assert(Self::map_of(t) =~= Self::map_of(s).insert(e.0@, e.1.deep_view()));
        } else {
            assert(t.drop_last() =~= s.drop_last().update(i, e));
            Self::lemma_update_same_key(s.drop_last(), i, e);
            assert(t.last() == s.last());
            assert(s[i].0@ != s.last().0@);
            assert(Self::map_of(t) =~= Self::map_of(s).insert(e.0@, e.1.deep_view()));
        }
    }

    /// In a reverse topological order every recorded import is itself
    /// recorded.
    pub proof fn lemma_topo_closed(&self)
        requires
            self.wf(),
            self.topo_ord(),
        ensures
            forall|k: Seq<char>, j: int|
                self@.contains_key(k) && 0 <= j < self@[k].len() ==> self@.contains_key(
                    #[trigger] self@[k][j],
                ),
    {
        let s = self.entries@;
        Self::lemma_map_of_dom(s);
        assert forall|k: Seq<char>, j: int|
            self@.contains_key(k) && 0 <= j < self@[k].len() implies self@.contains_key(
            #[trigger] self@[k][j],
        ) by {
            let i = choose|i: int| 0 <= i < s.len() && s[i].0@ == k;
            Self::lemma_map_of_index(s, i);
            assert(self@[k] == s[i].1.deep_view());
            assert(s[i].1@[j]@ == self@[k][j]);
            assert(Self::keys_of(s).take(i).contains(s[i].1@[j]@));
            let p = choose|p: int| 0 <= p < i && Self::keys_of(s).take(i)[p] == s[i].1@[j]@;
            assert(s[p].0@ == self@[k][j]);
        }
    }

    /// A graph recorded in reverse topological order has no cycle.
    pub proof fn lemma_topo_acyclic(&self)
        requires
            self.wf(),
            self.topo_ord(),
        ensures
            acyclic(self@),
    {
        assert forall|m: Seq<char>| !depends_on(self@, m, m) by {
            if depends_on(self@, m, m) {
                let n = choose|n: nat| n >= 1 && reaches_n(self@, m, m, n);
                self.lemma_reach_rank(m, m, n);
                let ia = choose|ia: int|
                    0 <= ia < self.entries@.len() && self.entries@[ia].0@ == m && exists|ib: int|
                        0 <= ib < ia && self.entries@[ib].0@ == m;
                let ib = choose|ib: int| 0 <= ib < ia && self.entries@[ib].0@ == m;
                assert(self.entries@[ib].0@ == self.entries@[ia].0@);
                assert(false);
            }
        }
    }

    /// Along any path of at least one edge the source's record stands
    /// strictly later than the target's.
    proof fn lemma_reach_rank(&self, a: Seq<char>, b: Seq<char>, n: nat)
        requires
            self.wf(),
            self.topo_ord(),
            n >= 1,
            reaches_n(self@, a, b, n),
        ensures
            exists|ia: int|
                0 <= ia < self.entries@.len() && self.entries@[ia].0@ == a && exists|ib: int|
                    0 <= ib < ia && self.entries@[ib].0@ == b,
        decreases n,
    {
        let s = self.entries@;
        let m = choose|m: Seq<char>| #[trigger] step(self@, a, m) && reaches_n(self@, m, b, (n - 1) as nat);
        Self::lemma_map_of_dom(s);
        let ia = choose|ia: int| 0 <= ia < s.len() && s[ia].0@ == a;
        Self::lemma_map_of_index(s, ia);
        assert(self@[a] == s[ia].1.deep_view());
        let j = choose|j: int| 0 <= j < self@[a].len() && self@[a][j] == m;
        assert(s[ia].1@[j]@ == m);
        assert(Self::keys_of(s).take(ia).contains(m));
        let im = choose|im: int| 0 <= im < ia && Self::keys_of(s).take(ia)[im] == m;
        assert(s[im].0@ == m);
        if n == 1 {
            assert(b == m);
        } else {
            self.lemma_reach_rank(m, b, (n - 1) as nat);
            let ia2 = choose|ia2: int|
                0 <= ia2 < s.len() && s[ia2].0@ == m && exists|ib: int|
                    0 <= ib < ia2 && s[ib].0@ == b;
            let ib = choose|ib: int| 0 <= ib < ia2 && s[ib].0@ == b;
            assert(ia2 == im) by {
                if ia2 != im {
                    assert(s[ia2].0@ == s[im].0@);
                }
            }
            assert(0 <= ib < ia);
        }
    }

    /// Every module whose direct-or-transitive dependency list contains
    /// `uri`, computed by saturating the inverted edge set.
    pub fn reverse_dependencies(&self, uri: &Url) -> (r: Vec<Url>)
        requires
            self.wf(),
        ensures
            forall|m: Seq<char>| r.deep_view().contains(m) <==> depends_on(self@, m, uri@),
    {
        let mut result: Vec<Url> = Vec::new();
        loop
            invariant_except_break
                self.wf(),
                forall|m: Seq<char>|
                    result.deep_view().contains(m) ==> depends_on(self@, m, uri@),
                forall|i: int, j: int|
                    0 <= i < j < result@.len() ==> result@[i]@ != result@[j]@,
                forall|i: int|
                    0 <= i < result@.len() ==> self@.contains_key(#[trigger] result@[i]@),
                result@.len() <= self.entries@.len(),
            ensures
                self.wf(),
                forall|m: Seq<char>|
                    result.deep_view().contains(m) ==> depends_on(self@, m, uri@),
                Self::saturated(self.entries@, result.deep_view(), uri@),
            decreases self.entries@.len() - result@.len(),
        {
            let ghost len0 = result@.len();
            let mut changed = false;
            let mut i: usize = 0;
            while i < self.entries.len()
                invariant
                    self.wf(),
                    i <= self.entries@.len(),
                    forall|m: Seq<char>|
                        result.deep_view().contains(m) ==> depends_on(self@, m, uri@),
                    forall|i2: int, j2: int|
                        0 <= i2 < j2 < result@.len() ==> result@[i2]@ != result@[j2]@,
                    forall|i2: int|
                        0 <= i2 < result@.len() ==> self@.contains_key(#[trigger] result@[i2]@),
                    result@.len() <= self.entries@.len(),
                    result@.len() >= len0,
                    changed ==> result@.len() > len0,
                    !changed ==> result@.len() == len0,
                    !changed ==> forall|j: int|
                        0 <= j < i ==> Self::entry_closed(
                            self.entries@[j],
                            result.deep_view(),
                            uri@,
                        ),
                decreases self.entries@.len() - i,
            {
                let m = &self.entries[i].0;
                let deps = &self.entries[i].1;
                if !contains_url(&result, m) && (contains_url(deps, uri) || any_in(
                    deps,
                    &result,
                )) {
                    proof {
                        Self::lemma_map_of_index(self.entries@, i as int);
                        if deps.deep_view().contains(uri@) {
                            lemma_step_is_dependency(self@, m@, uri@);
                        } else {
                            let d = choose|d: Seq<char>|
                                deps.deep_view().contains(d) && result.deep_view().contains(d);
                            lemma_step_then_dependency(self@, m@, d, uri@);
                        }
                    }
                    let ghost pre = result.deep_view();
                    proof {
                        assert forall|j: int| 0 <= j < result@.len() implies #[trigger] result@[j]@
                            != m@ by {
                            assert(result.deep_view()[j] == result@[j]@);
                        }
                    }
                    result.push(m.clone());
                    changed = true;
                    proof {
                        assert(result.deep_view() =~= pre.push(m@));
                        assert forall|x: Seq<char>|
                            #[trigger] result.deep_view().contains(x) implies (pre.contains(x)
                            || x == m@) by {
                            let ix = choose|ix: int|
                                0 <= ix < result.deep_view().len() && result.deep_view()[ix] == x;
                            if ix < pre.len() {
                                assert(pre[ix] == x);
                            }
                        }
                        self.lemma_result_bound(result@);
                    }
                }
                i = i + 1;
            }
            if !changed {
                break;
            }
        }
        proof {
            assert forall|m: Seq<char>| depends_on(self@, m, uri@) implies result.deep_view()
                .contains(m) by {
                let n = choose|n: nat| n >= 1 && reaches_n(self@, m, uri@, n);
                self.lemma_saturated_complete(result.deep_view(), uri@, m, n);
            }
        }
        result
    }

    /// One pass over `s` would add nothing: every module with an edge to
    /// `target` or into `res` is already in `res`.
    spec fn entry_closed(e: (Url, Vec<Url>), res: Seq<Seq<char>>, target: Seq<char>) -> bool {
        (e.1.deep_view().contains(target) || exists|d: Seq<char>|
            e.1.deep_view().contains(d) && res.contains(d)) ==> res.contains(e.0@)
    }

    spec fn saturated(s: Seq<(Url, Vec<Url>)>, res: Seq<Seq<char>>, target: Seq<char>) -> bool {
        forall|j: int| 0 <= j < s.len() ==> Self::entry_closed(#[trigger] s[j], res, target)
    }

    /// A distinct list of tracked identifiers is no longer than the entry
    /// list.
    proof fn lemma_result_bound(&self, resv: Seq<Url>)
        requires
            self.wf(),
            forall|i: int, j: int| 0 <= i < j < resv.len() ==> resv[i]@ != resv[j]@,
            forall|i: int| 0 <= i < resv.len() ==> self@.contains_key(#[trigger] resv[i]@),
        ensures
            resv.len() <= self.entries@.len(),
    {
        let s = self.entries@;
        Self::lemma_map_of_dom(s);
        let f = |m: Seq<char>| choose|i: int| 0 <= i < s.len() && s[i].0@ == m;
        // map each result position to a distinct entry index
        let idxs = Seq::new(resv.len(), |p: int| f(resv[p]@));
        assert forall|p: int| 0 <= p < resv.len() implies 0 <= #[trigger] idxs[p] < s.len()
            && s[idxs[p]].0@ == resv[p]@ by {
            assert(self@.contains_key(resv[p]@));
        }
        assert forall|p: int, q: int| 0 <= p < q < resv.len() implies idxs[p] != idxs[q] by {
            assert(s[idxs[p]].0@ == resv[p]@ && s[idxs[q]].0@ == resv[q]@);
        }
        lemma_distinct_indices_bound(idxs, s.len() as int);
    }

    /// After saturation, everything that depends on `target` is in `res`.
    proof fn lemma_saturated_complete(
        &self,
        res: Seq<Seq<char>>,
        target: Seq<char>,
        m: Seq<char>,
        n: nat,
    )
        requires
            self.wf(),
            Self::saturated(self.entries@, res, target),
            n >= 1,
            reaches_n(self@, m, target, n),
        ensures
            res.contains(m),
        decreases n,
    {
        let s = self.entries@;
        let x = choose|x: Seq<char>| #[trigger] step(self@, m, x) && reaches_n(
            self@,
            x,
            target,
            (n - 1) as nat,
        );
        Self::lemma_map_of_dom(s);
        let i = choose|i: int| 0 <= i < s.len() && s[i].0@ == m;
        Self::lemma_map_of_index(s, i);
        assert(self@[m] == s[i].1.deep_view());
        assert(s[i].1.deep_view().contains(x));
        if n == 1 {
            assert(x == target);
            assert(Self::entry_closed(s[i], res, target));
        } else {
            self.lemma_saturated_complete(res, target, x, (n - 1) as nat);
            assert(Self::entry_closed(s[i], res, target));
        }
    }
}

/// A sequence of distinct indices below `n` has at most `n` members.
proof fn lemma_distinct_indices_bound(idxs: Seq<int>, n: int)
    requires
        n >= 0,
        forall|p: int| 0 <= p < idxs.len() ==> 0 <= #[trigger] idxs[p] < n,
        forall|p: int, q: int| 0 <= p < q < idxs.len() ==> idxs[p] != idxs[q],
    ensures
        idxs.len() <= n,
    decreases n,
{
    if idxs.len() > n {
        if n == 0 {
            assert(idxs.len() > 0);
            assert(0 <= idxs[0] < n);
        } else {
            // remove every occurrence of n - 1 (there is at most one)
            if exists|p: int| 0 <= p < idxs.len() && idxs[p] == n - 1 {
                let p = choose|p: int| 0 <= p < idxs.len() && idxs[p] == n - 1;
                let rest = idxs.remove(p);
                assert forall|q: int| 0 <= q < rest.len() implies 0 <= #[trigger] rest[q] < n - 1 by {
                    if q < p {
                        assert(rest[q] == idxs[q]);
                        assert(idxs[q] != n - 1);
                    } else {
                        assert(rest[q] == idxs[q + 1]);
                        assert(idxs[q + 1] != n - 1);
                    }
                }
                assert forall|q: int, r: int| 0 <= q < r < rest.len() implies rest[q] != rest[r] by {
                    if r < p {
                    } else if q < p {
                        assert(rest[q] == idxs[q] && rest[r] == idxs[r + 1]);
                    } else {
                        assert(rest[q] == idxs[q + 1] && rest[r] == idxs[r + 1]);
                    }
                }
                lemma_distinct_indices_bound(rest, n - 1);
            } else {
                assert forall|q: int| 0 <= q < idxs.len() implies 0 <= #[trigger] idxs[q] < n - 1 by {
                    assert(idxs[q] != n - 1);
                }
                lemma_distinct_indices_bound(idxs, n - 1);
            }
        }
    }
}

/// Whether `u` occurs in `v`.
pub(crate) fn contains_url(v: &Vec<Url>, u: &Url) -> (r: bool)
    ensures
        r == v.deep_view().contains(u@),
{
    let mut i: usize = 0;
    while i < v.len()
        invariant
            i <= v@.len(),
            forall|j: int| 0 <= j < i ==> v@[j]@ != u@,
        decreases v@.len() - i,
    {
        if v[i] == *u {
            proof {
                assert(v.deep_view()[i as int] == u@);
            }
            return true;
        }
        i = i + 1;
    }
    proof {
        assert forall|j: int| 0 <= j < v.deep_view().len() implies v.deep_view()[j] != u@ by {
            assert(v@[j]@ != u@);
        }
    }
    false
}

/// Whether some member of `deps` occurs in `marked`.
fn any_in(deps: &Vec<Url>, marked: &Vec<Url>) -> (r: bool)
    ensures
        r == exists|d: Seq<char>| deps.deep_view().contains(d) && marked.deep_view().contains(d),
{
    let mut i: usize = 0;
    while i < deps.len()
        invariant
            i <= deps@.len(),
            forall|j: int| 0 <= j < i ==> !marked.deep_view().contains(#[trigger] deps@[j]@),
        decreases deps@.len() - i,
    {
        if contains_url(marked, &deps[i]) {
            proof {
                assert(deps.deep_view()[i as int] == deps@[i as int]@);
                assert(deps.deep_view().contains(deps@[i as int]@));
            }
            return true;
        }
        i = i + 1;
    }
    proof {
        assert forall|d: Seq<char>|
            deps.deep_view().contains(d) implies !marked.deep_view().contains(d) by {
            let j = choose|j: int| 0 <= j < deps.deep_view().len() && deps.deep_view()[j] == d;
            assert(deps@[j]@ == d);
        }
    }
    false
}

} // verus!
