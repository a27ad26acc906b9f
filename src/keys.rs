//! Key normalisation: the single function applied to every key of the index
//! and to every query.
use vstd::prelude::*;
use std::borrow::Cow;
use crate::text::{ascii_lower, ascii_lowercase};

verus! {

/// Maps a key to the form in which keys are stored and compared.
pub trait KeyMaker {
    /// The normalised form of `key`.
    spec fn spec_make(&self, key: Seq<char>, resource: bool) -> Seq<char>;

    fn make(&self, key: &Cow<str>, resource: bool) -> (r: String)
        ensures
            r@ == self.spec_make(key@, resource),
    ;
}

/// The default normalisation: ASCII letters folded to lower case.
pub struct AsciiLowercase;

impl KeyMaker for AsciiLowercase {
    open spec fn spec_make(&self, key: Seq<char>, resource: bool) -> Seq<char> {
        key.map_values(|c: char| ascii_lower(c))
    }

    fn make(&self, key: &Cow<str>, resource: bool) -> (r: String) {
        let s: &str = match key {
            Cow::Borrowed(b) => b,
            Cow::Owned(o) => o.as_str(),
        };
        ascii_lowercase(s)
    }
}

/// Keys kept exactly as given.
pub struct Verbatim;

impl KeyMaker for Verbatim {
    open spec fn spec_make(&self, key: Seq<char>, resource: bool) -> Seq<char> {
        key
    }

    fn make(&self, key: &Cow<str>, resource: bool) -> (r: String) {
        let s: &str = match key {
            Cow::Borrowed(b) => b,
            Cow::Owned(o) => o.as_str(),
        };
        s.to_owned()
    }
}

} // verus!
