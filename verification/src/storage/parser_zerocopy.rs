//! The zero-copy (archive-based) codec's identity. Its serializer and
//! deserializer are generic over the archive library's own traits, which
//! only unverified code can be bound by; here lives what the core speaks
//! of: the codec and its content-type tag.

use vstd::prelude::*;
use vstd::string::StringExecFns;

verus! {

/// The zero-copy codec, backed by an archive format.
#[derive(Default, Debug)]
pub struct Rkyv;

impl Rkyv {
    /// The content-type tag attached to objects written with this codec.
    pub fn mime(&self) -> (r: String)
        ensures
            r@ == "application/rkyv"@,
    {
        String::from_str("application/rkyv")
    }
}

} // verus!
