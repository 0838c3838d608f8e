use vstd::prelude::*;

use std::sync::Arc;

use crate::uri::Url;

verus! {

/// Relies on `alloc::sync::Arc::clone`: returns a second handle to the same
/// allocation, hence to the same value.
#[verifier::external_body]
pub(crate) fn arc_clone<T>(b: &Arc<T>) -> (res: Arc<T>)
    ensures
        res == *b,
{
    Arc::clone(b)
}

/// One slot of a staged cache: the artifact last computed for a module,
/// and a staleness mark.  A stale artifact must not be trusted, but it is
/// kept for best-effort diagnostics until it is overwritten.
pub struct CacheEntry<V> {
    pub value: V,
    pub stale: bool,
}

/// A staged cache: one artifact of a single compilation stage per module
/// identifier.  Entries are never evicted; invalidation only marks them.
pub struct Cache<V> {
    entries: Vec<(Url, CacheEntry<V>)>,
}

/// What `get_unless_stale` yields on a cache with contents `m`.
pub open spec fn fresh_get<V>(m: Map<Seq<char>, CacheEntry<V>>, k: Seq<char>) -> Option<V> {
    if m.contains_key(k) && !m[k].stale {
        Some(m[k].value)
    } else {
        None
    }
}

/// What `get_even_if_stale` yields on a cache with contents `m`.
pub open spec fn any_get<V>(m: Map<Seq<char>, CacheEntry<V>>, k: Seq<char>) -> Option<V> {
    if m.contains_key(k) {
        Some(m[k].value)
    } else {
        None
    }
}

impl<V> Cache<V> {
    /// The contents: module identifier (by view) to entry.
    pub closed spec fn view(&self) -> Map<Seq<char>, CacheEntry<V>> {
        Self::map_of(self.entries@)
    }

    /// The tracked identifiers, in first-insertion order.
    pub closed spec fn key_seq(&self) -> Seq<Seq<char>> {
        Self::keys_of(self.entries@)
    }

    /// Each identifier is tracked at most once.
    pub closed spec fn wf(&self) -> bool {
        Self::distinct_keys(self.entries@)
    }

    pub closed spec fn map_of(s: Seq<(Url, CacheEntry<V>)>) -> Map<Seq<char>, CacheEntry<V>>
        decreases s.len(),
    {
        if s.len() == 0 {
            Map::empty()
        } else {
            Self::map_of(s.drop_last()).insert(s.last().0@, s.last().1)
        }
    }

    pub closed spec fn keys_of(s: Seq<(Url, CacheEntry<V>)>) -> Seq<Seq<char>> {
        s.map_values(|e: (Url, CacheEntry<V>)| e.0@)
    }

    pub closed spec fn distinct_keys(s: Seq<(Url, CacheEntry<V>)>) -> bool {
        forall|i: int, j: int| 0 <= i < j < s.len() ==> s[i].0@ != s[j].0@
    }

    proof fn lemma_map_of_dom(s: Seq<(Url, CacheEntry<V>)>)
        ensures
            forall|k: Seq<char>|
                Self::map_of(s).contains_key(k) <==> exists|i: int|
                    0 <= i < s.len() && s[i].0@ == k,
        decreases s.len(),
    {
        if s.len() > 0 {
            Self::lemma_map_of_dom(s.drop_last());
            assert(Self::map_of(s) == Self::map_of(s.drop_last()).insert(s.last().0@, s.last().1));
            assert forall|k: Seq<char>| #[trigger] Self::map_of(s).contains_key(k) implies exists|
                i: int,
            | 0 <= i < s.len() && s[i].0@ == k by {
                if s.last().0@ == k {
                    assert(s[s.len() - 1].0@ == k);
                } else {
                    assert(Self::map_of(s.drop_last()).contains_key(k));
                    let i = choose|i: int| 0 <= i < s.drop_last().len() && s.drop_last()[i].0@ == k;
                    assert(s.drop_last()[i] == s[i]);
                    assert(s[i].0@ == k);
                }
            }
            assert forall|k: Seq<char>| (exists|i: int| 0 <= i < s.len() && s[i].0@ == k) implies #[trigger] Self::map_of(
                s,
            ).contains_key(k) by {
                let i = choose|i: int| 0 <= i < s.len() && s[i].0@ == k;
                if i < s.len() - 1 {
                    assert(s.drop_last()[i].0@ == k);
                }
            }
        }
    }

    proof fn lemma_map_of_index(s: Seq<(Url, CacheEntry<V>)>, i: int)
        requires
            Self::distinct_keys(s),
            0 <= i < s.len(),
        ensures
            Self::map_of(s).contains_key(s[i].0@),
            Self::map_of(s)[s[i].0@] == s[i].1,
        decreases s.len(),
    {
        Self::lemma_map_of_dom(s);
        if i < s.len() - 1 {
            assert(s[i].0@ != s.last().0@);
            assert(s.drop_last()[i] == s[i]);
            Self::lemma_map_of_index(s.drop_last(), i);
        }
    }

    /// The set of tracked identifiers is finite.
    pub proof fn lemma_dom_finite(&self)
        ensures
            self@.dom().finite(),
    {
        Self::lemma_map_of_finite(self.entries@);
    }

    proof fn lemma_map_of_finite(s: Seq<(Url, CacheEntry<V>)>)
        ensures
            Self::map_of(s).dom().finite(),
        decreases s.len(),
    {
        if s.len() > 0 {
            Self::lemma_map_of_finite(s.drop_last());
        }
    }

    /// A tracked identifier is exactly one that occurs in `key_seq`.
    pub proof fn lemma_key_seq_dom(&self)
        ensures
            forall|k: Seq<char>| self@.contains_key(k) <==> self.key_seq().contains(k),
    {
        Self::lemma_map_of_dom(self.entries@);
        assert forall|k: Seq<char>| self@.contains_key(k) <==> self.key_seq().contains(k) by {
            if self@.contains_key(k) {
                let i = choose|i: int| 0 <= i < self.entries@.len() && self.entries@[i].0@ == k;
                assert(self.key_seq()[i] == k);
            }
            if self.key_seq().contains(k) {
                let i = choose|i: int| 0 <= i < self.key_seq().len() && self.key_seq()[i] == k;
                assert(self.entries@[i].0@ == k);
            }
        }
    }

    pub fn new() -> (r: Cache<V>)
        ensures
            r@ == Map::<Seq<char>, CacheEntry<V>>::empty(),
            r.key_seq() == Seq::<Seq<char>>::empty(),
            r.wf(),
    {
        let r = Cache { entries: Vec::new() };
        proof {
            assert(r.key_seq() =~= Seq::<Seq<char>>::empty());
        }
        r
    }

    /// The index at which `uri` is tracked, if any.
    fn find(&self, uri: &Url) -> (r: Option<usize>)
        ensures
            match r {
                Some(i) => i < self.entries@.len() && self.entries@[i as int].0@ == uri@,
                None => forall|i: int| 0 <= i < self.entries@.len() ==> self.entries@[i].0@ != uri@,
            },
    {
        let mut i: usize = 0;
        while i < self.entries.len()
            invariant
                i <= self.entries@.len(),
                forall|j: int| 0 <= j < i ==> self.entries@[j].0@ != uri@,
            decreases self.entries@.len() - i,
        {
            if self.entries[i].0 == *uri {
                return Some(i);
            }
            i = i + 1;
        }
        None
    }

    /// The entry for `uri`, only if it is present and not marked stale;
    /// otherwise the caller must recompute.
    pub fn get_unless_stale(&self, uri: &Url) -> (r: Option<&V>)
        requires
            self.wf(),
        ensures
            match r {
                Some(v) => fresh_get(self@, uri@) == Some(*v),
                None => fresh_get(self@, uri@) is None,
            },
    {
        proof {
            Self::lemma_map_of_dom(self.entries@);
        }
        match self.find(uri) {
            Some(i) => {
                proof {
                    Self::lemma_map_of_index(self.entries@, i as int);
                }
                let e = &self.entries[i].1;
                if e.stale {
                    None
                } else {
                    Some(&e.value)
                }
            },
            None => None,
        }
    }

    /// The entry for `uri` regardless of staleness, for best-effort
    /// diagnostics.
    pub fn get_even_if_stale(&self, uri: &Url) -> (r: Option<&V>)
        requires
            self.wf(),
        ensures
            match r {
                Some(v) => any_get(self@, uri@) == Some(*v),
                None => any_get(self@, uri@) is None,
            },
    {
        proof {
            Self::lemma_map_of_dom(self.entries@);
        }
        match self.find(uri) {
            Some(i) => {
                proof {
                    Self::lemma_map_of_index(self.entries@, i as int);
                }
                Some(&self.entries[i].1.value)
            },
            None => None,
        }
    }

    /// Overwrites any existing entry for `uri` and clears its staleness.
    pub fn insert(&mut self, uri: Url, value: V)
        requires
            old(self).wf(),
        ensures
            final(self).wf(),
            final(self)@ == old(self)@.insert(uri@, CacheEntry { value, stale: false }),
            final(self).key_seq() == if old(self)@.contains_key(uri@) {
                old(self).key_seq()
            } else {
                old(self).key_seq().push(uri@)
            },
    {
        proof {
            Self::lemma_map_of_dom(self.entries@);
        }
        let entry = CacheEntry { value, stale: false };
        match self.find(&uri) {
            Some(i) => {
                let _ = self.entries.remove(i);
                self.entries.insert(i, (uri, entry));
                proof {
                    let olds = old(self).entries@;
                    let news = self.entries@;
                    assert(news =~= olds.update(i as int, news[i as int]));
                    Self::lemma_update_same_key(olds, i as int, news[i as int]);
                }
            },
            None => {
                self.entries.push((uri, entry));
                proof {
                    let olds = old(self).entries@;
                    let news = self.entries@;
                    assert(news.drop_last() =~= olds);
                    assert(self.key_seq() =~= old(self).key_seq().push(news.last().0@));
                }
            },
        }
    }

    proof fn lemma_update_same_key(
        s: Seq<(Url, CacheEntry<V>)>,
        i: int,
        e: (Url, CacheEntry<V>),
    )
        requires
            Self::distinct_keys(s),
            0 <= i < s.len(),
            e.0@ == s[i].0@,
        ensures
            Self::distinct_keys(s.update(i, e)),
            Self::map_of(s.update(i, e)) == Self::map_of(s).insert(e.0@, e.1),
            Self::keys_of(s.update(i, e)) == Self::keys_of(s),
        decreases s.len(),
    {
        let t = s.update(i, e);
        assert(Self::keys_of(t) =~= Self::keys_of(s));
        if i == s.len() - 1 {
            assert(t.drop_last() =~= s.drop_last());
            assert(t.last() == e);
            assert(Self::map_of(t) =~= Self::map_of(s).insert(e.0@, e.1));
        } else {
            assert(t.drop_last() =~= s.drop_last().update(i, e));
            Self::lemma_update_same_key(s.drop_last(), i, e);
            assert(t.last() == s.last());
            assert(s[i].0@ != s.last().0@);
            assert(Self::map_of(t) =~= Self::map_of(s).insert(e.0@, e.1));
        }
    }

    /// Marks the entry for `uri` stale if one is present; touches nothing
    /// else and removes nothing.
    pub fn invalidate(&mut self, uri: &Url)
        requires
            old(self).wf(),
        ensures
            final(self).wf(),
            final(self).key_seq() == old(self).key_seq(),
            final(self)@ == if old(self)@.contains_key(uri@) {
                old(self)@.insert(
                    uri@,
                    CacheEntry { value: old(self)@[uri@].value, stale: true },
                )
            } else {
                old(self)@
            },
    {
        proof {
            Self::lemma_map_of_dom(self.entries@);
        }
        match self.find(uri) {
            Some(i) => {
                proof {
                    Self::lemma_map_of_index(self.entries@, i as int);
                }
                let (k, e) = self.entries.remove(i);
                let e2 = CacheEntry { value: e.value, stale: true };
                self.entries.insert(i, (k, e2));
                proof {
                    let olds = old(self).entries@;
                    let news = self.entries@;
                    assert(news =~= olds.update(i as int, news[i as int]));
                    Self::lemma_update_same_key(olds, i as int, news[i as int]);
                }
            },
            None => {},
        }
    }

    /// The currently tracked identifiers, in first-insertion order; used to
    /// seed full dependency-graph rebuilds.
    pub fn keys(&self) -> (r: Vec<Url>)
        ensures
            r.deep_view() == self.key_seq(),
    {
        let mut r: Vec<Url> = Vec::new();
        let mut i: usize = 0;
        while i < self.entries.len()
            invariant
                i <= self.entries@.len(),
                r.deep_view() =~= Self::keys_of(self.entries@).take(i as int),
            decreases self.entries@.len() - i,
        {
            let ghost pre = r.deep_view();
            let u = self.entries[i].0.clone();
            r.push(u);
            proof {
                assert(r.deep_view() =~= pre.push(self.entries@[i as int].0@));
                assert(Self::keys_of(self.entries@)[i as int] == self.entries@[i as int].0@);
                assert(r.deep_view() =~= Self::keys_of(self.entries@).take(i + 1 as int));
            }
            i = i + 1;
        }
        proof {
            assert(r.deep_view() =~= self.key_seq());
        }
        r
    }
}

/// Invalidation keeps the previous artifact available to `get_even_if_stale`
/// while `get_unless_stale` stops returning it.
pub proof fn lemma_stale_but_available<V>(
    pre: Map<Seq<char>, CacheEntry<V>>,
    post: Map<Seq<char>, CacheEntry<V>>,
    k: Seq<char>,
)
    requires
        pre.contains_key(k),
        post == pre.insert(k, CacheEntry { value: pre[k].value, stale: true }),
    ensures
        any_get(post, k) == any_get(pre, k),
        fresh_get(post, k) is None,
{
}

} // verus!
