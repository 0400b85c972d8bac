//! The in-process backend: a map from name to byte payload, with the
//! same contract as the remote store, so that switching backends is
//! observably transparent.

use vstd::prelude::*;

use crate::storage::direct::DKey;
use crate::storage::direct::DKeyWithParserCopy;
use crate::storage::parser::Parser;
use crate::storage::clone_bytes;
use crate::storage::entries_view;
use crate::storage::entry_names;
use crate::storage::lemma_entry_names_dom;
use crate::storage::lemma_sal_index;
use crate::storage::lemma_sal_map_len;
use crate::storage::lemma_sal_push;
use crate::storage::lemma_sal_put;
use crate::storage::list_keys;
use crate::storage::listing_spec;
use crate::storage::sal_contains;
use crate::storage::sal_distinct;
use crate::storage::sal_map;
use crate::storage::sal_remove;
use crate::storage::str_eq;
use crate::storage::ListKeyObjects;
use crate::storage::LruError;
use crate::storage::MemoryError;
use crate::storage::Sink;

verus! {

/// The in-process byte-object store.
#[derive(Debug)]
pub struct Memory {
    data: Vec<(String, Vec<u8>)>,
}

impl Memory {
    /// The stored entries, as (name, payload) pairs.
    pub closed spec fn data_view(&self) -> Seq<(Seq<char>, Seq<u8>)> {
        entries_view(self.data@)
    }

    /// The objects held, as a map from name to byte payload.
    pub open spec fn objects(&self) -> Map<Seq<char>, Seq<u8>> {
        sal_map(self.data_view())
    }

    /// No name is stored twice.
    pub open spec fn wf(&self) -> bool {
        sal_distinct(self.data_view())
    }

    /// How many objects are held.
    pub fn len(&self) -> (r: usize)
        requires
            self.wf(),
        ensures
            r == self.objects().dom().len(),
    {
        proof {
            lemma_sal_map_len(self.data_view());
        }
        self.data.len()
    }

    /// Whether no object is held.
    pub fn is_empty(&self) -> (r: bool)
        requires
            self.wf(),
        ensures
            r == (self.objects().dom().len() == 0),
    {
        proof {
            lemma_sal_map_len(self.data_view());
        }
        self.data.is_empty()
    }

    /// The raw payload stored under the name of `key`, if any.
    pub fn get_bytes<DKEY: DKey>(&self, key: &DKEY) -> (r: Option<&Vec<u8>>)
        requires
            self.wf(),
        ensures
            r matches Some(v) ==> self.objects().contains_key(key.spec_name()) && v@
                == self.objects()[key.spec_name()],
            r is None ==> !self.objects().contains_key(key.spec_name()),
    {
        let name = key.name();
        match self.find_index(name.as_str()) {
            Some(i) => {
                proof {
                    lemma_sal_index(self.data_view(), i as int);
                }
                Some(&self.data[i].1)
            },
            None => None,
        }
    }

    /// The index of the entry named `key`, if one is stored.
    fn find_index(&self, key: &str) -> (r: Option<usize>)
        ensures
            r matches Some(i) ==> i < self.data_view().len() && self.data_view()[i as int].0
                == key@,
            r is None ==> !sal_contains(self.data_view(), key@),
    {
        let n = self.data.len();
        let mut i: usize = 0;
        while i < n
            invariant
                i <= n,
                n == self.data@.len(),
                forall|j: int| 0 <= j < i ==> self.data@[j].0@ != key@,
            decreases n - i,
        {
            if str_eq(self.data[i].0.as_str(), key) {
                return Some(i);
            }
            i += 1;
        }
        None
    }

    /// Whether an object named `key` is held.
    fn exists_inner(&self, key: &str) -> (r: bool)
        ensures
            r == self.objects().contains_key(key@),
    {
        self.find_index(key).is_some()
    }

    /// Store `value` under `key`, overwriting any previous payload.
    fn put_bytes_inner(&mut self, key: String, value: Vec<u8>)
        requires
            old(self).wf(),
        ensures
            final(self).wf(),
            final(self).objects() == old(self).objects().insert(key@, value@),
    {
        let ghost old_view = self.data_view();
        let ghost k = key@;
        let ghost v = value@;
        match self.find_index(key.as_str()) {
            Some(i) => {
                proof {
                    lemma_sal_index(old_view, i as int);
                }
                self.data.remove(i);
                proof {
                    assert(self.data_view() =~= sal_remove(old_view, k));
                }
                self.data.push((key, value));
                proof {
                    assert(self.data_view() =~= sal_remove(old_view, k).push((k, v)));
                    lemma_sal_put(old_view, k, v);
                }
            },
            None => {
                self.data.push((key, value));
                proof {
                    assert(self.data_view() =~= old_view.push((k, v)));
                    lemma_sal_push(old_view, k, v);
                }
            },
        }
    }

    /// Delimiter-scoped listing of the held names under `prefix`.
    fn list_objects_inner(&self, prefix: &str) -> (r: ListKeyObjects)
        ensures
            r.wf(),
            r.to_set() == listing_spec(self.objects().dom(), prefix@),
    {
        proof {
            lemma_entry_names_dom(self.data@);
        }
        list_keys(&self.data, prefix)
    }

    /// Serialize `value` with `parser` and store it under `key`; a
    /// serialization failure stores nothing.
    fn put_object_inner<VALUE: View, PARSER: Parser<VALUE>>(
        &mut self,
        key: String,
        value: &VALUE,
        parser: &PARSER,
    ) -> (r: Result<(), MemoryError>)
        requires
            old(self).wf(),
        ensures
            final(self).wf(),
            r is Ok ==> parser.spec_encode(value) is Some && final(self).objects() == old(
                self,
            ).objects().insert(key@, parser.spec_encode(value)->Some_0),
            r is Err ==> parser.spec_encode(value) is None && final(self).objects() == old(
                self,
            ).objects(),
    {
        match parser.serialize_value(value) {
            Ok(bytes) => {
                self.put_bytes_inner(key, bytes);
                Ok(())
            },
            Err(err) => Err(MemoryError::Serde(err)),
        }
    }

    /// Read the payload stored under `key` and deserialize it with
    /// `parser`; absence is an empty result, not an error.
    fn get_object_inner<VALUE: View, PARSER: Parser<VALUE>>(&self, key: &str, parser: &PARSER) -> (r:
        Result<Option<VALUE>, MemoryError>)
        requires
            self.wf(),
        ensures
            !self.objects().contains_key(key@) ==> (r matches Ok(o) && o is None),
            self.objects().contains_key(key@) ==> forall|v: VALUE|
                parser.spec_encode(&v) == Some(self.objects()[key@]) ==> (r matches Ok(o)
                    && o matches Some(w) && w@ == v@),
    {
        match self.find_index(key) {
            Some(i) => {
                proof {
                    lemma_sal_index(self.data_view(), i as int);
                }
                match parser.deserialize_value(self.data[i].1.as_slice()) {
                    Ok(w) => Ok(Some(w)),
                    Err(err) => Err(MemoryError::Serde(err)),
                }
            },
            None => Ok(None),
        }
    }
}

impl Default for Memory {
    /// The empty store.
    fn default() -> (r: Self)
        ensures
            r.wf(),
            r.objects() == Map::<Seq<char>, Seq<u8>>::empty(),
    {
        let r = Memory { data: Vec::new() };
        proof {
            assert(r.objects() =~= Map::<Seq<char>, Seq<u8>>::empty());
        }
        r
    }
}

impl Sink for Memory {
    open spec fn inv(&self) -> bool {
        self.wf()
    }

    open spec fn objects(&self) -> Map<Seq<char>, Seq<u8>> {
        self.objects()
    }

    open spec fn infallible(&self) -> bool {
        true
    }

    fn exists_copy<DKEY: DKey, PARSER>(
        &self,
        key_with_parser: &DKeyWithParserCopy<'_, DKEY, PARSER>,
    ) -> (r: Result<bool, LruError>)
        ensures
            r is Ok,
    {
        let name = key_with_parser.key().name();
        Ok(self.exists_inner(name.as_str()))
    }

    fn put_object_copy<VALUE: View, DKEY: DKey, PARSER: Parser<VALUE>>(
        &mut self,
        key_with_parser: &DKeyWithParserCopy<'_, DKEY, PARSER>,
        value: &VALUE,
    ) -> (r: Result<(), LruError>)
        ensures
            r is Ok <==> key_with_parser.spec_parser().spec_encode(value) is Some,
            r matches Err(e) ==> e matches LruError::Memory(m) && m is Serde,
    {
        let name = key_with_parser.key().name();
        match self.put_object_inner(name, value, key_with_parser.parser()) {
            Ok(()) => Ok(()),
            Err(err) => Err(LruError::Memory(err)),
        }
    }

    fn put_bytes_copy<DKEY: DKey>(&mut self, key: &DKEY, mime: String, value: Vec<u8>) -> (r:
        Result<(), LruError>)
        ensures
            r is Ok,
    {
        let name = key.name();
        self.put_bytes_inner(name, value);
        Ok(())
    }

    fn get_object_copy<VALUE: View, DKEY: DKey, PARSER: Parser<VALUE>>(
        &self,
        key_with_parser: &DKeyWithParserCopy<'_, DKEY, PARSER>,
    ) -> (r: Result<Option<VALUE>, LruError>)
        ensures
            r matches Err(e) ==> e matches LruError::Memory(m) && m is Serde,
    {
        let name = key_with_parser.key().name();
        match self.get_object_inner(name.as_str(), key_with_parser.parser()) {
            Ok(o) => Ok(o),
            Err(err) => Err(LruError::Memory(err)),
        }
    }

    fn get_bytes_copy(&self, key: &str) -> (r: Result<Option<Vec<u8>>, LruError>)
        ensures
            r is Ok,
    {
        match self.find_index(key) {
            Some(i) => {
                proof {
                    lemma_sal_index(self.data_view(), i as int);
                }
                Ok(Some(clone_bytes(&self.data[i].1)))
            },
            None => Ok(None),
        }
    }

    fn list_objects_copy(&self, prefix: &str) -> (r: Result<ListKeyObjects, LruError>)
        ensures
            r is Ok,
    {
        Ok(self.list_objects_inner(prefix))
    }
}

} // verus!
