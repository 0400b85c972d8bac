//! Parsers (codecs): stateless strategies that turn a typed value into a
//! byte payload and back, and report a content-type tag.

use vstd::prelude::*;

use crate::storage::ParserError;
use vstd::string::StringExecFns;

verus! {

/// A codec for values of type `VALUE`.
///
/// `spec_encode` is the mathematical encoding relation: `Some(b)` when the
/// value serializes to the bytes `b`, `None` when serialization fails.
/// The contracts of `serialize_value` and `deserialize_value` together
/// make the pair mutually inverse: deserializing the serialization of a
/// value yields a value with the same view.
pub trait Parser<VALUE: View>: Sized {
    /// The bytes `v` encodes to, or `None` when encoding fails.
    spec fn spec_encode(&self, v: &VALUE) -> Option<Seq<u8>>;

    /// The content-type tag reported for written objects.
    spec fn spec_mime(&self) -> Seq<char>;

    /// Serialize `value` to its byte payload.
    fn serialize_value(&self, value: &VALUE) -> (r: Result<Vec<u8>, ParserError>)
        ensures
            r matches Ok(b) ==> self.spec_encode(value) == Some(b@),
            r is Err ==> self.spec_encode(value) is None,
    ;

    /// Deserialize a byte payload back to a value; on the encoding of any
    /// value it returns exactly that value.
    fn deserialize_value(&self, content: &[u8]) -> (r: Result<VALUE, ParserError>)
        ensures
            forall|v: VALUE|
                self.spec_encode(&v) == Some(content@) ==> (r matches Ok(w) && w@ == v@),
    ;

    /// The content-type tag, advisory metadata attached to written objects.
    fn mime(&self) -> (r: String)
        ensures
            r@ == self.spec_mime(),
    ;
}

/// The JSON encoding of a string: a function of its characters alone.
pub uninterp spec fn json_string_bytes(s: Seq<char>) -> Seq<u8>;

/// Relies on `serde_json::to_vec`: the JSON encoding of a `String` is
/// determined by its characters, and serializing a string into a byte
/// vector cannot fail.
#[verifier::external_body]
fn json_to_vec(value: &String) -> (r: Result<Vec<u8>, ParserError>)
    ensures
        r is Ok,
        r->Ok_0@ == json_string_bytes(value@),
{
    match serde_json::to_vec(value) {
        Ok(b) => Ok(b),
        Err(err) => Err(ParserError::Serde { internal: err.to_string() }),
    }
}

/// Relies on `serde_json::from_slice`: parsing the JSON encoding of a
/// string gives back exactly that string.
#[verifier::external_body]
fn json_from_slice(content: &[u8]) -> (r: Result<String, ParserError>)
    ensures
        forall|s: Seq<char>|
            #[trigger] json_string_bytes(s) == content@ ==> r is Ok && r->Ok_0@ == s,
{
    match serde_json::from_slice::<String>(content) {
        Ok(s) => Ok(s),
        Err(err) => Err(ParserError::Serde { internal: err.to_string() }),
    }
}

/// The JSON codec, backed by `serde_json`.
#[derive(Default, Debug)]
pub struct Json;

impl Parser<String> for Json {
    open spec fn spec_encode(&self, v: &String) -> Option<Seq<u8>> {
        Some(json_string_bytes(v@))
    }

    open spec fn spec_mime(&self) -> Seq<char> {
        "application/json"@
    }

    fn serialize_value(&self, value: &String) -> (r: Result<Vec<u8>, ParserError>) {
        json_to_vec(value)
    }

    fn deserialize_value(&self, content: &[u8]) -> (r: Result<String, ParserError>) {
        json_from_slice(content)
    }

    fn mime(&self) -> (r: String) {
        String::from_str("application/json")
    }
}

} // verus!
