use vstd::prelude::*;
use vstd::string::StringExecFns;

use crate::result::LoweringError;

verus! {

/// A De-Bruijn level: distance from the bottom of the binder context.
#[derive(Clone, Copy, PartialEq, Eq, Structural, Debug)]
pub struct Lvl {
    pub fst: usize,
    pub snd: usize,
}

/// A De-Bruijn index: distance from the top of the binder context.
#[derive(Clone, Copy, PartialEq, Eq, Structural, Debug)]
pub struct Idx {
    pub fst: usize,
    pub snd: usize,
}

/// One binder that a name stands for: a bound variable at its level, or a
/// top-level declaration.
#[derive(Clone, Copy, PartialEq, Eq, Structural, Debug)]
pub enum Elem {
    Bound(Lvl),
    Decl,
}

/// Metadata of a top-level declaration, as the lowering pass records it.
pub enum DeclKind {
    Data { arity: usize },
    Codata { arity: usize },
    Def,
    Codef,
    Ctor { in_typ: String },
    Dtor { on_typ: String },
}

/// The name-resolution context of the lowering pass: for each name, the
/// stack of binders it currently stands for (the last entry is in scope,
/// the rest are shadowed), the metadata of the declared names, and the
/// number of entries of each De-Bruijn level.
pub struct Ctx {
    map: Vec<(String, Vec<Elem>)>,
    decl_kinds: Vec<(String, DeclKind)>,
    levels: Vec<usize>,
}

impl Ctx {
    /// The binder stack each name currently stands for.
    pub closed spec fn names(&self) -> Map<Seq<char>, Seq<Elem>> {
        Self::map_of(self.map@)
    }

    /// The recorded declaration metadata.
    pub closed spec fn kinds(&self) -> Map<Seq<char>, DeclKind> {
        Self::kinds_of(self.decl_kinds@)
    }

    /// The entry count of each De-Bruijn level.
    pub closed spec fn lvls(&self) -> Seq<usize> {
        self.levels@
    }

    pub closed spec fn wf(&self) -> bool {
        &&& forall|i: int, j: int| 0 <= i < j < self.map@.len() ==> self.map@[i].0@ != self.map@[j].0@
        &&& forall|i: int, j: int|
            0 <= i < j < self.decl_kinds@.len() ==> self.decl_kinds@[i].0@ != self.decl_kinds@[j].0@
    }

    pub closed spec fn map_of(s: Seq<(String, Vec<Elem>)>) -> Map<Seq<char>, Seq<Elem>>
        decreases s.len(),
    {
        if s.len() == 0 {
            Map::empty()
        } else {
            Self::map_of(s.drop_last()).insert(s.last().0@, s.last().1@)
        }
    }

    pub closed spec fn kinds_of(s: Seq<(String, DeclKind)>) -> Map<Seq<char>, DeclKind>
        decreases s.len(),
    {
        if s.len() == 0 {
            Map::empty()
        } else {
            Self::kinds_of(s.drop_last()).insert(s.last().0@, s.last().1)
        }
    }

    proof fn lemma_map_of_dom(s: Seq<(String, Vec<Elem>)>)
        ensures
            forall|k: Seq<char>|
                Self::map_of(s).contains_key(k) <==> exists|i: int|
                    0 <= i < s.len() && s[i].0@ == k,
        decreases s.len(),
    {
        if s.len() > 0 {
            Self::lemma_map_of_dom(s.drop_last());
            assert(Self::map_of(s) == Self::map_of(s.drop_last()).insert(s.last().0@, s.last().1@));
            assert forall|k: Seq<char>| #[trigger] Self::map_of(s).contains_key(k) implies exists|
                i: int,
            | 0 <= i < s.len() && s[i].0@ == k by {
                if s.last().0@ == k {
                    assert(s[s.len() - 1].0@ == k);
                } else {
                    assert(Self::map_of(s.drop_last()).contains_key(k));
                    let i = choose|i: int| 0 <= i < s.drop_last().len() && s.drop_last()[i].0@ == k;
                    assert(s.drop_last()[i] == s[i]);
                }
            }
            assert forall|k: Seq<char>| (exists|i: int| 0 <= i < s.len() && s[i].0@ == k) implies #[trigger] Self::map_of(
                s,
            ).contains_key(k) by {
                let i = choose|i: int| 0 <= i < s.len() && s[i].0@ == k;
                if i < s.len() - 1 {
                    assert(s.drop_last()[i].0@ == k);
                }
            }
        }
    }

    proof fn lemma_map_of_index(s: Seq<(String, Vec<Elem>)>, i: int)
        requires
            forall|p: int, q: int| 0 <= p < q < s.len() ==> s[p].0@ != s[q].0@,
            0 <= i < s.len(),
        ensures
            Self::map_of(s).contains_key(s[i].0@),
            Self::map_of(s)[s[i].0@] == s[i].1@,
        decreases s.len(),
    {
        Self::lemma_map_of_dom(s);
        if i < s.len() - 1 {
            assert(s[i].0@ != s.last().0@);
            assert(s.drop_last()[i] == s[i]);
            Self::lemma_map_of_index(s.drop_last(), i);
        }
    }

    proof fn lemma_kinds_of_dom(s: Seq<(String, DeclKind)>)
        ensures
            forall|k: Seq<char>|
                Self::kinds_of(s).contains_key(k) <==> exists|i: int|
                    0 <= i < s.len() && s[i].0@ == k,
        decreases s.len(),
    {
        if s.len() > 0 {
            Self::lemma_kinds_of_dom(s.drop_last());
            assert(Self::kinds_of(s) == Self::kinds_of(s.drop_last()).insert(
                s.last().0@,
                s.last().1,
            ));
            assert forall|k: Seq<char>| #[trigger] Self::kinds_of(s).contains_key(k) implies exists|
                i: int,
            | 0 <= i < s.len() && s[i].0@ == k by {
                if s.last().0@ == k {
                    assert(s[s.len() - 1].0@ == k);
                } else {
                    assert(Self::kinds_of(s.drop_last()).contains_key(k));
                    let i = choose|i: int| 0 <= i < s.drop_last().len() && s.drop_last()[i].0@ == k;
                    assert(s.drop_last()[i] == s[i]);
                }
            }
            assert forall|k: Seq<char>| (exists|i: int| 0 <= i < s.len() && s[i].0@ == k) implies #[trigger] Self::kinds_of(
                s,
            ).contains_key(k) by {
                let i = choose|i: int| 0 <= i < s.len() && s[i].0@ == k;
                if i < s.len() - 1 {
                    assert(s.drop_last()[i].0@ == k);
                }
            }
        }
    }

    proof fn lemma_kinds_of_index(s: Seq<(String, DeclKind)>, i: int)
        requires
            forall|p: int, q: int| 0 <= p < q < s.len() ==> s[p].0@ != s[q].0@,
            0 <= i < s.len(),
        ensures
            Self::kinds_of(s).contains_key(s[i].0@),
            Self::kinds_of(s)[s[i].0@] == s[i].1,
        decreases s.len(),
    {
        Self::lemma_kinds_of_dom(s);
        if i < s.len() - 1 {
            assert(s[i].0@ != s.last().0@);
            assert(s.drop_last()[i] == s[i]);
            Self::lemma_kinds_of_index(s.drop_last(), i);
        }
    }

    pub fn empty() -> (r: Ctx)
        ensures
            r.wf(),
            r.names() == Map::<Seq<char>, Seq<Elem>>::empty(),
            r.kinds() == Map::<Seq<char>, DeclKind>::empty(),
            r.lvls() == Seq::<usize>::empty(),
    {
        Ctx { map: Vec::new(), decl_kinds: Vec::new(), levels: Vec::new() }
    }

    fn find_name(&self, name: &String) -> (r: Option<usize>)
        ensures
            match r {
                Some(i) => i < self.map@.len() && self.map@[i as int].0@ == name@,
                None => forall|i: int| 0 <= i < self.map@.len() ==> self.map@[i].0@ != name@,
            },
    {
        let mut i: usize = 0;
        while i < self.map.len()
            invariant
                i <= self.map@.len(),
                forall|j: int| 0 <= j < i ==> self.map@[j].0@ != name@,
            decreases self.map@.len() - i,
        {
            if self.map[i].0 == *name {
                return Some(i);
            }
            i = i + 1;
        }
        None
    }

    fn find_kind(&self, name: &String) -> (r: Option<usize>)
        ensures
            match r {
                Some(i) => i < self.decl_kinds@.len() && self.decl_kinds@[i as int].0@ == name@,
                None => forall|i: int|
                    0 <= i < self.decl_kinds@.len() ==> self.decl_kinds@[i].0@ != name@,
            },
    {
        let mut i: usize = 0;
        while i < self.decl_kinds.len()
            invariant
                i <= self.decl_kinds@.len(),
                forall|j: int| 0 <= j < i ==> self.decl_kinds@[j].0@ != name@,
            decreases self.decl_kinds@.len() - i,
    {
            if self.decl_kinds[i].0 == *name {
                return Some(i);
            }
            i = i + 1;
        }
        None
    }

    /// The binder a name stands for: the innermost one, or an undefined-
    /// identifier failure if the name is not in scope.
    pub fn lookup(&self, name: &String) -> (r: Result<&Elem, LoweringError>)
        requires
            self.wf(),
        ensures
            match r {
                Ok(e) => self.names().contains_key(name@) && self.names()[name@].len() > 0 && *e
                    == self.names()[name@].last(),
                Err(_) => !self.names().contains_key(name@) || self.names()[name@].len() == 0,
            },
    {
        proof {
            Self::lemma_map_of_dom(self.map@);
        }
        match self.find_name(name) {
            Some(i) => {
                proof {
                    Self::lemma_map_of_index(self.map@, i as int);
                }
                let stack = &self.map[i].1;
                if stack.len() > 0 {
                    Ok(&stack[stack.len() - 1])
                } else {
                    Err(LoweringError {
                        message: undefined_ident_message(name),
                        span: None,
                    })
                }
            },
            None => Err(LoweringError { message: undefined_ident_message(name), span: None }),
        }
    }

    /// The metadata of a declared name.
    pub fn decl_kind(&self, name: &String) -> (r: &DeclKind)
        requires
            self.wf(),
            self.kinds().contains_key(name@),
        ensures
            *r == self.kinds()[name@],
    {
        proof {
            Self::lemma_kinds_of_dom(self.decl_kinds@);
        }
        match self.find_kind(name) {
            Some(i) => {
                proof {
                    Self::lemma_kinds_of_index(self.decl_kinds@, i as int);
                }
                &self.decl_kinds[i].1
            },
            None => {
                proof {
                    assert(false);
                }
                unreached()
            },
        }
    }

    /// The type a constructor or destructor belongs to; only declared
    /// constructors and destructors may be queried.
    pub fn typ_name_for_xtor(&self, name: &String) -> (r: &String)
        requires
            self.wf(),
            self.kinds().contains_key(name@),
            self.kinds()[name@] is Ctor || self.kinds()[name@] is Dtor,
        ensures
            match self.kinds()[name@] {
                DeclKind::Ctor { in_typ } => r@ == in_typ@,
                DeclKind::Dtor { on_typ } => r@ == on_typ@,
                _ => false,
            },
    {
        match self.decl_kind(name) {
            DeclKind::Ctor { in_typ } => in_typ,
            DeclKind::Dtor { on_typ } => on_typ,
            _ => {
                proof {
                    assert(false);
                }
                unreached()
            },
        }
    }

    /// The arity of a declared data or codata type; only those may be
    /// queried.
    pub fn typ_ctor_arity(&self, name: &String) -> (r: usize)
        requires
            self.wf(),
            self.kinds().contains_key(name@),
            self.kinds()[name@] is Data || self.kinds()[name@] is Codata,
        ensures
            match self.kinds()[name@] {
                DeclKind::Data { arity } => r == arity,
                DeclKind::Codata { arity } => r == arity,
                _ => false,
            },
    {
        match self.decl_kind(name) {
            DeclKind::Data { arity } => *arity,
            DeclKind::Codata { arity } => *arity,
            _ => {
                proof {
                    assert(false);
                }
                unreached()
            },
        }
    }

    /// Declares a top-level name: records its metadata and pushes a
    /// declaration binder onto its stack.
    pub fn add_name(&mut self, name: &String, decl_kind: DeclKind) -> (r: Result<
        (),
        LoweringError,
    >)
        requires
            old(self).wf(),
        ensures
            final(self).wf(),
            r is Ok,
            final(self).kinds() == old(self).kinds().insert(name@, decl_kind),
            final(self).names() == old(self).names().insert(
                name@,
                if old(self).names().contains_key(name@) {
                    old(self).names()[name@].push(Elem::Decl)
                } else {
                    seq![Elem::Decl]
                },
            ),
            final(self).lvls() == old(self).lvls(),
    {
        proof {
            Self::lemma_kinds_of_dom(self.decl_kinds@);
            Self::lemma_map_of_dom(self.map@);
        }
        match self.find_kind(name) {
            Some(i) => {
                proof {
                    Self::lemma_kinds_of_index(self.decl_kinds@, i as int);
                }
                let _ = self.decl_kinds.remove(i);
                self.decl_kinds.insert(i, (name.clone(), decl_kind));
                proof {
                    let olds = old(self).decl_kinds@;
                    let news = self.decl_kinds@;
                    assert(news =~= olds.update(i as int, news[i as int]));
                    Self::lemma_kinds_update(olds, i as int, news[i as int]);
                }
            },
            None => {
                self.decl_kinds.push((name.clone(), decl_kind));
                proof {
                    assert(self.decl_kinds@.drop_last() =~= old(self).decl_kinds@);
                }
            },
        }
        self.push_elem(name, Elem::Decl);
        Ok(())
    }

    proof fn lemma_kinds_update(s: Seq<(String, DeclKind)>, i: int, e: (String, DeclKind))
        requires
            forall|p: int, q: int| 0 <= p < q < s.len() ==> s[p].0@ != s[q].0@,
            0 <= i < s.len(),
            e.0@ == s[i].0@,
        ensures
            forall|p: int, q: int|
                0 <= p < q < s.update(i, e).len() ==> s.update(i, e)[p].0@ != s.update(i, e)[q].0@,
            Self::kinds_of(s.update(i, e)) == Self::kinds_of(s).insert(e.0@, e.1),
        decreases s.len(),
    {
        let t = s.update(i, e);
        if i == s.len() - 1 {
            assert(t.drop_last() =~= s.drop_last());
            assert(t.last() == e);
            assert(Self::kinds_of(t) =~= Self::kinds_of(s).insert(e.0@, e.1));
        } else {
            assert(t.drop_last() =~= s.drop_last().update(i, e));
            Self::lemma_kinds_update(s.drop_last(), i, e);
            assert(t.last() == s.last());
            assert(s[i].0@ != s.last().0@);
            assert(Self::kinds_of(t) =~= Self::kinds_of(s).insert(e.0@, e.1));
        }
    }

    proof fn lemma_map_update(s: Seq<(String, Vec<Elem>)>, i: int, e: (String, Vec<Elem>))
        requires
            forall|p: int, q: int| 0 <= p < q < s.len() ==> s[p].0@ != s[q].0@,
            0 <= i < s.len(),
            e.0@ == s[i].0@,
        ensures
            forall|p: int, q: int|
                0 <= p < q < s.update(i, e).len() ==> s.update(i, e)[p].0@ != s.update(i, e)[q].0@,
            Self::map_of(s.update(i, e)) == Self::map_of(s).insert(e.0@, e.1@),
        decreases s.len(),
    {
        let t = s.update(i, e);
        if i == s.len() - 1 {
            assert(t.drop_last() =~= s.drop_last());
            assert(t.last() == e);
            assert(Self::map_of(t) =~= Self::map_of(s).insert(e.0@, e.1@));
        } else {
            assert(t.drop_last() =~= s.drop_last().update(i, e));
            Self::lemma_map_update(s.drop_last(), i, e);
            assert(t.last() == s.last());
            assert(s[i].0@ != s.last().0@);
            assert(Self::map_of(t) =~= Self::map_of(s).insert(e.0@, e.1@));
        }
    }

    /// Pushes one binder onto a name's stack.
    fn push_elem(&mut self, name: &String, elem: Elem)
        requires
            old(self).wf(),
        ensures
            final(self).wf(),
            final(self).names() == old(self).names().insert(
                name@,
                if old(self).names().contains_key(name@) {
                    old(self).names()[name@].push(elem)
                } else {
                    seq![elem]
                },
            ),
            final(self).kinds() == old(self).kinds(),
            final(self).lvls() == old(self).lvls(),
    {
        proof {
            Self::lemma_map_of_dom(self.map@);
        }
        match self.find_name(name) {
            Some(i) => {
                proof {
                    Self::lemma_map_of_index(self.map@, i as int);
                }
                let (k, mut stack) = self.map.remove(i);
                stack.push(elem);
                self.map.insert(i, (k, stack));
                proof {
                    let olds = old(self).map@;
                    let news = self.map@;
                    assert(news =~= olds.update(i as int, news[i as int]));
                    assert(news[i as int].1@ =~= olds[i as int].1@.push(elem));
                    Self::lemma_map_update(olds, i as int, news[i as int]);
                }
            },
            None => {
                let mut stack: Vec<Elem> = Vec::new();
                stack.push(elem);
                self.map.push((name.clone(), stack));
                proof {
                    assert(self.map@.drop_last() =~= old(self).map@);
                    assert(self.map@.last().1@ =~= seq![elem]);
                }
            },
        }
    }

    /// Pushes a binder contained in a binder list, incrementing the second
    /// dimension of the current De-Bruijn level.
    pub fn push_idx(&mut self, name: &String)
        requires
            old(self).wf(),
            old(self).lvls().len() > 0,
            old(self).lvls().last() < usize::MAX,
        ensures
            final(self).wf(),
            final(self).names() == old(self).names().insert(
                name@,
                if old(self).names().contains_key(name@) {
                    old(self).names()[name@].push(
                        Elem::Bound(
                            Lvl {
                                fst: (old(self).lvls().len() - 1) as usize,
                                snd: old(self).lvls().last(),
                            },
                        ),
                    )
                } else {
                    seq![
                        Elem::Bound(
                            Lvl {
                                fst: (old(self).lvls().len() - 1) as usize,
                                snd: old(self).lvls().last(),
                            },
                        )
                    ]
                },
            ),
            final(self).kinds() == old(self).kinds(),
            final(self).lvls() == old(self).lvls().update(
                old(self).lvls().len() - 1,
                (old(self).lvls().last() + 1) as usize,
            ),
    {
        let var = Elem::Bound(self.curr_lvl());
        self.level_inc_snd();
        self.push_elem(name, var);
    }

    /// Pops a binder from a name's stack, decrementing the second
    /// dimension of the current De-Bruijn level; the name must be bound.
    pub fn pop_idx(&mut self, name: &String)
        requires
            old(self).wf(),
            old(self).lvls().len() > 0,
            old(self).lvls().last() > 0,
            old(self).names().contains_key(name@),
            old(self).names()[name@].len() > 0,
        ensures
            final(self).wf(),
            final(self).names() == old(self).names().insert(
                name@,
                old(self).names()[name@].drop_last(),
            ),
            final(self).kinds() == old(self).kinds(),
            final(self).lvls() == old(self).lvls().update(
                old(self).lvls().len() - 1,
                (old(self).lvls().last() - 1) as usize,
            ),
    {
        proof {
            Self::lemma_map_of_dom(self.map@);
        }
        match self.find_name(name) {
            Some(i) => {
                proof {
                    Self::lemma_map_of_index(self.map@, i as int);
                }
                let (k, mut stack) = self.map.remove(i);
                let _ = stack.pop();
                self.map.insert(i, (k, stack));
                proof {
                    let olds = old(self).map@;
                    let news = self.map@;
                    assert(news =~= olds.update(i as int, news[i as int]));
                    assert(news[i as int].1@ =~= olds[i as int].1@.drop_last());
                    Self::lemma_map_update(olds, i as int, news[i as int]);
                }
            },
            None => {
                proof {
                    assert(false);
                }
            },
        }
        self.level_dec_snd();
    }

    /// The next De-Bruijn level to be assigned.
    pub fn curr_lvl(&self) -> (r: Lvl)
        requires
            self.lvls().len() > 0,
        ensures
            r.fst == self.lvls().len() - 1,
            r.snd == self.lvls().last(),
    {
        let fst = self.levels.len() - 1;
        let snd = self.levels[fst];
        Lvl { fst, snd }
    }

    /// Converts a De-Bruijn level to a De-Bruijn index, relative to the
    /// current context.
    pub fn level_to_index(&self, lvl: Lvl) -> (r: Idx)
        requires
            (lvl.fst as int) < self.lvls().len(),
            (lvl.snd as int) < self.lvls()[lvl.fst as int],
        ensures
            r.fst == self.lvls().len() - 1 - lvl.fst,
            r.snd == self.lvls()[lvl.fst as int] - 1 - lvl.snd,
    {
        let fst = self.levels.len() - 1 - lvl.fst;
        let snd = self.levels[lvl.fst] - 1 - lvl.snd;
        Idx { fst, snd }
    }

    /// Converts the level of a bound variable to the index under which the
    /// lowered tree refers to it.
    pub fn lower_bound(&self, lvl: Lvl) -> (r: Idx)
        requires
            (lvl.fst as int) < self.lvls().len(),
            (lvl.snd as int) < self.lvls()[lvl.fst as int],
        ensures
            r.fst == self.lvls().len() - 1 - lvl.fst,
            r.snd == self.lvls()[lvl.fst as int] - 1 - lvl.snd,
    {
        self.level_to_index(lvl)
    }

    /// Increments the first component of the current De-Bruijn level.
    pub fn level_inc_fst(&mut self)
        requires
            old(self).lvls().len() < usize::MAX,
        ensures
            final(self).lvls() == old(self).lvls().push(0usize),
            final(self).names() == old(self).names(),
            final(self).kinds() == old(self).kinds(),
            old(self).wf() ==> final(self).wf(),
    {
        self.levels.push(0);
    }

    /// Decrements the first component of the current De-Bruijn level.
    pub fn level_dec_fst(&mut self)
        requires
            old(self).lvls().len() > 0,
        ensures
            final(self).lvls() == old(self).lvls().drop_last(),
            final(self).names() == old(self).names(),
            final(self).kinds() == old(self).kinds(),
            old(self).wf() ==> final(self).wf(),
    {
        let popped = self.levels.pop();
        proof {
            assert(popped is Some);
        }
    }

    /// Increments the second component of the current De-Bruijn level.
    pub fn level_inc_snd(&mut self)
        requires
            old(self).lvls().len() > 0,
            old(self).lvls().last() < usize::MAX,
        ensures
            final(self).lvls() == old(self).lvls().update(
                old(self).lvls().len() - 1,
                (old(self).lvls().last() + 1) as usize,
            ),
            final(self).names() == old(self).names(),
            final(self).kinds() == old(self).kinds(),
            old(self).wf() ==> final(self).wf(),
    {
        let n = self.levels.len() - 1;
        let v = self.levels[n];
        self.levels[n] = v + 1;
    }

    /// Decrements the second component of the current De-Bruijn level.
    pub fn level_dec_snd(&mut self)
        requires
            old(self).lvls().len() > 0,
            old(self).lvls().last() > 0,
        ensures
            final(self).lvls() == old(self).lvls().update(
                old(self).lvls().len() - 1,
                (old(self).lvls().last() - 1) as usize,
            ),
            final(self).names() == old(self).names(),
            final(self).kinds() == old(self).kinds(),
            old(self).wf() ==> final(self).wf(),
    {
        let n = self.levels.len() - 1;
        let v = self.levels[n];
        self.levels[n] = v - 1;
    }
}

/// The message of an undefined-identifier failure.
fn undefined_ident_message(name: &String) -> (r: String)
    ensures
        r@ == "undefined identifier "@ + name@,
{
    let mut message: String = <String as StringExecFns>::from_str("undefined identifier ");
    message.append(name.as_str());
    message
}

} // verus!
