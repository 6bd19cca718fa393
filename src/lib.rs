//! Context-triggered piecewise hashing (the ssdeep / spamsum fuzzy hash).
//!
//! A [`Hasher`] turns a byte stream into a short printable hash of the form
//! `<blocksize>:<sig1>:<sig2>`; [`FuzzyHash::compare`] scores two such hashes
//! from 0 (unrelated) to 100 (alike).
//!
//! Comparing the empty string (or any text that does not hold exactly three
//! `:`-separated fields) fails with [`Error::MalformedInput`];
//! [`compare::strings`] turns every failure into a score of 0.

pub mod blockhash;
pub mod compare;
pub mod constants;
pub mod error;
pub mod hasher;
pub mod roll;
pub mod text;

pub use blockhash::Context;
pub use constants::Modes;
pub use error::Error;
pub use hasher::Hasher;
pub use roll::Roll;

use vstd::prelude::*;

use compare::{bytes_of, compare_spec};
use hasher::{digest_spec, initial_state, update_spec, HasherView};

verus! {

/// Hasher for fuzzy algorithm
pub struct FuzzyHash {
    hasher: Hasher,
    hash: Option<String>,
}

/// The result of comparing two hashes, with failures as `None`.
pub open spec fn ok_score(r: Result<u32, Error>) -> Option<u32> {
    match r {
        Ok(v) => Some(v),
        Err(_) => None,
    }
}

impl FuzzyHash {
    /// The hasher is in good order.
    pub closed spec fn wf(&self) -> bool {
        self.hasher.wf()
    }

    /// The state of the hasher inside.
    pub closed spec fn state(&self) -> HasherView {
        self.hasher@
    }

    /// The bytes of the finished hash, once there is one.
    pub closed spec fn hash_bytes(&self) -> Option<Seq<u8>> {
        match self.hash {
            Some(h) => Some(bytes_of(h@)),
            None => None,
        }
    }

    /// The bytes of the text form: the hash, or nothing before there is one.
    pub open spec fn text_bytes(&self) -> Seq<u8> {
        match self.hash_bytes() {
            Some(h) => h,
            None => Seq::empty(),
        }
    }

    /// Construct a new FuzzyHash from source data
    pub fn new(input: &[u8]) -> (r: Self)
        ensures
            r.wf(),
            r.state() == update_spec(initial_state(), input@, input@.len() as int),
            r.hash_bytes() == Some(digest_spec(r.state(), Modes::Normal)),
    {
        let mut this = Self::default();
        this.hasher.update(input, input.len());
        this.finalize();
        this
    }

    /// Add chunk to the data source
    pub fn update(&mut self, input: &[u8])
        requires
            old(self).wf(),
        ensures
            final(self).wf(),
            final(self).state() == update_spec(old(self).state(), input@, input@.len() as int),
            final(self).hash_bytes() == old(self).hash_bytes(),
    {
        self.hasher.update(input, input.len());
    }

    /// Called to finalize the hashing and generate a string value
    pub fn finalize(&mut self)
        requires
            old(self).wf(),
        ensures
            final(self).wf(),
            final(self).state() == old(self).state(),
            final(self).hash_bytes() == match old(self).hash_bytes() {
                Some(h) => Some(h),
                None => Some(digest_spec(old(self).state(), Modes::Normal)),
            },
    {
        if self.hash.is_none() {
            self.hash = Some(self.hasher.digest(Modes::Normal));
        }
    }

    /// Compare two fuzzy hashes
    ///
    /// # Arguments
    /// * `first` - first fuzzy hash to compare
    /// * `second` - second fuzzy hash to compare
    pub fn compare(first: &str, second: &str) -> (r: Result<u32, Error>)
        ensures
            r == compare_spec(bytes_of(first@), bytes_of(second@)),
    {
        compare::compare(first.as_bytes(), second.as_bytes())
    }

    /// Compare this fuzzy hash against another
    ///
    /// # Arguments
    /// * `other` - compare this fuzzy hash to `other`
    pub fn compare_to(&self, other: &FuzzyHash) -> (r: Option<u32>)
        ensures
            r == match self.hash_bytes() {
                Some(h) => ok_score(compare_spec(h, other.text_bytes())),
                None => None,
            },
    {
        match &self.hash {
            Some(hash) => {
                let theirs = other.to_string();
                match FuzzyHash::compare(hash.as_str(), theirs.as_str()) {
                    Ok(v) => Some(v),
                    Err(_) => None,
                }
            },
            None => None,
        }
    }

    /// The hash as text, empty before it is finalized.
    pub fn to_string(&self) -> (r: String)
        ensures
            bytes_of(r@) == self.text_bytes(),
    {
        match &self.hash {
            Some(hash) => hash.clone(),
            None => String::new(),
        }
    }
}

impl Default for FuzzyHash {
    fn default() -> (r: Self)
        ensures
            r.wf(),
            r.state() == initial_state(),
            r.hash_bytes() is None,
    {
        Self { hasher: Hasher::new(), hash: None }
    }
}

impl From<&str> for FuzzyHash {
    fn from(s: &str) -> Self {
        Self { hasher: Hasher::new(), hash: Some(s.to_string()) }
    }
}

impl vstd::std_specs::convert::FromSpecImpl<&str> for FuzzyHash {
    open spec fn obeys_from_spec() -> bool {
        false
    }

    open spec fn from_spec(s: &str) -> FuzzyHash {
        arbitrary()
    }
}

impl From<String> for FuzzyHash {
    fn from(s: String) -> Self {
        Self { hasher: Hasher::new(), hash: Some(s) }
    }
}

impl vstd::std_specs::convert::FromSpecImpl<String> for FuzzyHash {
    open spec fn obeys_from_spec() -> bool {
        false
    }

    open spec fn from_spec(s: String) -> FuzzyHash {
        arbitrary()
    }
}

} // verus!
