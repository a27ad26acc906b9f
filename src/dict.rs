//! The public face of a dictionary: its options and the definitions that a
//! lookup returns.
use vstd::prelude::*;

verus! {

/// A definition found for a word.
pub struct WordDefinition<'a> {
    pub key: &'a str,
    pub definition: String,
}

/// Options for opening a dictionary: the path of its MDX file and whether
/// decoded record blocks are cached for definitions and for resources.
pub struct MDictBuilder {
    path: String,
    cache_definition: bool,
    cache_resource: bool,
}

impl MDictBuilder {
    pub closed spec fn spec_path(&self) -> Seq<char> {
        self.path@
    }

    pub closed spec fn spec_cache_definition(&self) -> bool {
        self.cache_definition
    }

    pub closed spec fn spec_cache_resource(&self) -> bool {
        self.cache_resource
    }

    /// Options for the dictionary at `path`, caching nothing.
    pub fn new(path: &str) -> (r: Self)
        ensures
            r.spec_path() == path@,
            !r.spec_cache_definition(),
            !r.spec_cache_resource(),
    {
        MDictBuilder { path: path.to_owned(), cache_definition: false, cache_resource: false }
    }

    /// Sets whether record blocks of the definitions file are cached.
    pub fn cache_definition(self, cache: bool) -> (r: Self)
        ensures
            r.spec_path() == self.spec_path(),
            r.spec_cache_definition() == cache,
            r.spec_cache_resource() == self.spec_cache_resource(),
    {
        MDictBuilder { cache_definition: cache, ..self }
    }

    /// Sets whether record blocks of the resource files are cached.
    pub fn cache_resource(self, cache: bool) -> (r: Self)
        ensures
            r.spec_path() == self.spec_path(),
            r.spec_cache_definition() == self.spec_cache_definition(),
            r.spec_cache_resource() == cache,
    {
        MDictBuilder { cache_resource: cache, ..self }
    }

    pub fn path(&self) -> (r: &str)
        ensures
            r@ == self.spec_path(),
    {
        self.path.as_str()
    }

    pub fn caches_definitions(&self) -> (r: bool)
        ensures
            r == self.spec_cache_definition(),
    {
        self.cache_definition
    }

    pub fn caches_resources(&self) -> (r: bool)
        ensures
            r == self.spec_cache_resource(),
    {
        self.cache_resource
    }
}

} // verus!
