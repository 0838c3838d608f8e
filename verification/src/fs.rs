use vstd::prelude::*;
use vstd::string::StringExecFns;

use crate::cache::{Cache, CacheEntry};
use crate::result::SourceError;
use crate::uri::Url;

verus! {

/// A provider of raw module source text: a directory on disk, an editor's
/// buffers, or a plain in-memory table.  The database works identically
/// over each of them.
///
/// `modules` and `contents` are the provider's catalogue: the identifiers
/// it can currently serve and the text each one holds.  An implementation
/// must serve exactly that catalogue, keep it finite, and change it only
/// through `write_string`; the session discipline of the database (a single
/// writer, no concurrent mutation) makes this a faithful description of a
/// filesystem as well.
pub trait FileSource {
    /// The identifiers the provider can currently serve.
    spec fn modules(&self) -> Set<Seq<char>>;

    /// The text behind each served identifier.
    spec fn contents(&self) -> Map<Seq<char>, Seq<char>>;

    /// The provider's internal consistency.
    spec fn inv(&self) -> bool;

    /// The catalogue is finite and keyed by exactly the served modules.
    proof fn lemma_catalogue(&self)
        requires
            self.inv(),
        ensures
            self.modules().finite(),
            self.contents().dom() == self.modules(),
    ;

    /// Reads one module's text: the catalogue entry, exactly when the
    /// module is served.
    fn read_to_string(&mut self, uri: &Url) -> (r: Result<String, SourceError>)
        requires
            old(self).inv(),
        ensures
            final(self).inv(),
            final(self).modules() == old(self).modules(),
            final(self).contents() == old(self).contents(),
            r is Ok <==> old(self).modules().contains(uri@),
            r matches Ok(text) ==> text@ == old(self).contents()[uri@],
    ;

    /// Stores one module's text, creating the module if it was unknown.
    fn write_string(&mut self, uri: &Url, source: &str) -> (r: Result<(), SourceError>)
        requires
            old(self).inv(),
        ensures
            final(self).inv(),
            r is Ok ==> final(self).modules() == old(self).modules().insert(uri@)
                && final(self).contents() == old(self).contents().insert(uri@, source@),
            r is Err ==> final(self).modules() == old(self).modules()
                && final(self).contents() == old(self).contents(),
    ;
}

/// A source that keeps every module in memory; the seed for tests and for
/// editor-driven sessions.
pub struct InMemorySource {
    files: Cache<String>,
}

impl InMemorySource {
    pub fn new() -> (r: InMemorySource)
        ensures
            r.inv(),
            r.modules() == Set::<Seq<char>>::empty(),
    {
        let r = InMemorySource { files: Cache::new() };
        proof {
            assert(r.files@.dom() =~= Set::<Seq<char>>::empty());
        }
        r
    }
}

impl FileSource for InMemorySource {
    closed spec fn modules(&self) -> Set<Seq<char>> {
        self.files@.dom()
    }

    closed spec fn contents(&self) -> Map<Seq<char>, Seq<char>> {
        self.files@.map_values(|e: CacheEntry<String>| e.value@)
    }

    closed spec fn inv(&self) -> bool {
        self.files.wf()
    }

    proof fn lemma_catalogue(&self) {
        self.files.lemma_dom_finite();
        assert(self.contents().dom() =~= self.modules());
    }

    fn read_to_string(&mut self, uri: &Url) -> (r: Result<String, SourceError>) {
        match self.files.get_even_if_stale(uri) {
            Some(text) => Ok(text.clone()),
            None => Err(SourceError::NotFound { uri: uri.clone() }),
        }
    }

    fn write_string(&mut self, uri: &Url, source: &str) -> (r: Result<(), SourceError>) {
        let owned: String = <String as StringExecFns>::from_str(source);
        self.files.insert(uri.clone(), owned);
        proof {
            assert(self.modules() =~= old(self).modules().insert(uri@));
            assert(self.contents() =~= old(self).contents().insert(uri@, source@));
        }
        Ok(())
    }
}

} // verus!
