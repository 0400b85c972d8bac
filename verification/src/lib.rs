//! A key/value object-storage abstraction: semantic keys rendered to
//! hierarchical string paths, pluggable codecs that turn typed values into
//! byte payloads, byte-level backends, and a bounded read-through /
//! write-through cache decorator that reproduces the backend's
//! delimiter-based listing semantics locally.

use vstd::prelude::*;
use vstd::string::StringExecFns;

pub mod instance;
pub mod s3;
pub mod storage;

verus! {

/// A key producing a stable string name for an entity; the name is a
/// `/`-delimited hierarchical path and is used as the storage address.
pub trait Key {
    /// The mathematical name of this key.
    spec fn spec_name(&self) -> Seq<char>;

    /// Render the key to its storage path; pure and total.
    fn name(&self) -> (r: String)
        ensures
            r@ == self.spec_name(),
    ;
}

/// An owning pairing of a key and a parser; it carries no state of its own.
pub struct KeyWithParser<KEY, PARSER> where KEY: Key {
    key: KEY,
    parser: PARSER,
}

impl<KEY, PARSER> KeyWithParser<KEY, PARSER> where KEY: Key {
    /// The paired key, for use in contracts.
    pub closed spec fn spec_key(&self) -> &KEY {
        &self.key
    }

    /// The paired parser, for use in contracts.
    pub closed spec fn spec_parser(&self) -> &PARSER {
        &self.parser
    }

    /// Pair `key` with `parser`.
    pub fn new(key: KEY, parser: PARSER) -> (r: Self)
        ensures
            r.spec_key() == key,
            r.spec_parser() == parser,
    {
        KeyWithParser { key, parser }
    }

    /// The paired key.
    pub fn key(&self) -> (r: &KEY)
        ensures
            r == self.spec_key(),
    {
        &self.key
    }

    /// The paired parser.
    pub fn parser(&self) -> (r: &PARSER)
        ensures
            r == self.spec_parser(),
    {
        &self.parser
    }
}

/// The keys of the liveness records: the welcome record, and one alive
/// record per identified instance.
#[derive(Debug, Clone)]
pub enum LiveKey {
    Welcome,
    Alive(String),
}

impl Key for LiveKey {
    open spec fn spec_name(&self) -> Seq<char> {
        match self {
            LiveKey::Welcome => "live/welcome"@,
            LiveKey::Alive(id) => "live/alive-"@ + id@,
        }
    }

    fn name(&self) -> (r: String) {
        match self {
            LiveKey::Welcome => String::from_str("live/welcome"),
            LiveKey::Alive(id) => String::from_str("live/alive-").concat(id.as_str()),
        }
    }
}

} // verus!
