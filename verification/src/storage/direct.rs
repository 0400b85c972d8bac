//! Keys addressed directly by name, and the borrowed pairing of a key
//! with a parser for the duration of one operation.

use vstd::prelude::*;

verus! {

/// A key producing a stable string name; the name is the storage address.
pub trait DKey {
    /// The mathematical name of this key.
    spec fn spec_name(&self) -> Seq<char>;

    /// Render the key to its storage path; pure and total.
    fn name(&self) -> (r: String)
        ensures
            r@ == self.spec_name(),
    ;
}

impl DKey for String {
    /// A string is its own storage name.
    open spec fn spec_name(&self) -> Seq<char> {
        self@
    }

    fn name(&self) -> (r: String) {
        self.clone()
    }
}

/// A non-owning pairing of a key and a parser for a single call; it
/// carries no state of its own.
pub struct DKeyWithParserCopy<'content, DKEY, PARSER> where DKEY: DKey {
    key: &'content DKEY,
    parser: &'content PARSER,
}

impl<'content, DKEY, PARSER> DKeyWithParserCopy<'content, DKEY, PARSER> where DKEY: DKey {
    /// The paired key, for use in contracts.
    pub closed spec fn spec_key(&self) -> &'content DKEY {
        self.key
    }

    /// The paired parser, for use in contracts.
    pub closed spec fn spec_parser(&self) -> &'content PARSER {
        self.parser
    }

    /// Pair `key` with `parser`.
    pub fn new(key: &'content DKEY, parser: &'content PARSER) -> (r: Self)
        ensures
            r.spec_key() == key,
            r.spec_parser() == parser,
    {
        DKeyWithParserCopy { key, parser }
    }

    /// The borrowed key.
    pub fn key(&self) -> (r: &DKEY)
        ensures
            r == self.spec_key(),
    {
        self.key
    }

    /// The borrowed parser.
    pub fn parser(&self) -> (r: &PARSER)
        ensures
            r == self.spec_parser(),
    {
        self.parser
    }
}

} // verus!
