//! The caching decorator: a bounded, recency-ordered byte cache and an
//! existence index layered in front of a backend, with read-through and
//! write-through policies.
//!
//! The cache entries are kept most-recently-used first; an insert beyond
//! capacity evicts the least-recently-used entry. Eviction only drops the
//! local copy: the backend still holds the object, and a later read heals
//! the cache from it.

use vstd::prelude::*;

use crate::storage::sal_contains;
use crate::storage::sal_distinct;
use crate::storage::sal_get;
use crate::storage::sal_map;
use crate::storage::sal_remove;
use crate::storage::lemma_sal_index;
use crate::storage::lemma_sal_remove;
use crate::storage::entries_view;
use crate::storage::lemma_entry_names_dom;
use crate::storage::list_keys;
use crate::storage::listing_spec;
use crate::storage::clone_bytes;
use crate::storage::str_eq;
use crate::storage::ListKeyObjects;
use crate::storage::LruError;
use crate::storage::parser::Parser;
use crate::storage::direct::DKey;
use crate::storage::direct::DKeyWithParserCopy;
use crate::storage::Sink;

verus! {

/// The whole observable state of a cache over a backend: the existence
/// index, the recency-ordered cache entries (most recent first), and the
/// backend's objects.
pub ghost struct CacheState {
    pub index: Set<Seq<char>>,
    pub entries: Seq<(Seq<char>, Seq<u8>)>,
    pub backend: Map<Seq<char>, Seq<u8>>,
}

/// Cache entries after a put of `k` with payload `v`: any previous entry
/// for `k` is dropped, the fresh one stands in front, and the
/// least-recently-used entry falls off when the capacity is exceeded.
pub open spec fn lru_put_entries(
    s: Seq<(Seq<char>, Seq<u8>)>,
    k: Seq<char>,
    v: Seq<u8>,
    cap: int,
) -> Seq<(Seq<char>, Seq<u8>)> {
    let r = seq![(k, v)] + sal_remove(s, k);
    if r.len() > cap {
        r.take(cap)
    } else {
        r
    }
}

/// Cache entries after a read of `k`: a held entry moves to the front,
/// everything else is unchanged.
pub open spec fn lru_touch_entries(s: Seq<(Seq<char>, Seq<u8>)>, k: Seq<char>) -> Seq<
    (Seq<char>, Seq<u8>),
> {
    if sal_contains(s, k) {
        seq![(k, sal_get(s, k))] + sal_remove(s, k)
    } else {
        s
    }
}

/// The state after a write-through put of `k` with payload `v`.
pub open spec fn spec_put_bytes(st: CacheState, k: Seq<char>, v: Seq<u8>, cap: int) -> CacheState {
    CacheState {
        index: st.index.insert(k),
        entries: lru_put_entries(st.entries, k, v, cap),
        backend: st.backend.insert(k, v),
    }
}

/// What a read of `k` is served from the local structures alone: the
/// cached payload when the existence index knows the name and the byte
/// cache still holds it, nothing otherwise.
pub open spec fn spec_get_cached(st: CacheState, k: Seq<char>) -> Option<Seq<u8>> {
    if st.index.contains(k) && sal_contains(st.entries, k) {
        Some(sal_get(st.entries, k))
    } else {
        None
    }
}

/// What a full read-through of `k` yields: the cached payload on a local
/// hit, the backend's payload otherwise.
pub open spec fn spec_get_full(st: CacheState, k: Seq<char>) -> Option<Seq<u8>> {
    match spec_get_cached(st, k) {
        Some(b) => Some(b),
        None => if st.backend.contains_key(k) {
            Some(st.backend[k])
        } else {
            None
        },
    }
}

/// Whether a conditional (write-once) put of `k` would write.
pub open spec fn spec_would_write(st: CacheState, k: Seq<char>) -> bool {
    !st.index.contains(k)
}

/// Coherence of the local structures with the backend: every cached
/// payload is exactly the backend's payload for that name. Write-through
/// establishes it and every operation preserves it.
pub open spec fn coherent(st: CacheState) -> bool {
    forall|x: Seq<char>|
        #[trigger] sal_contains(st.entries, x) ==> st.backend.contains_key(x) && sal_get(
            st.entries,
            x,
        ) == st.backend[x]
}

/// A bounded, recency-ordered byte cache with an existence index,
/// wrapping a backend.
pub struct Lru<STORAGE> {
    exists: Vec<String>,
    cache: Vec<(String, Vec<u8>)>,
    capacity: usize,
    /// The wrapped backend; authoritative for every object.
    pub storage: STORAGE,
}

impl<STORAGE> Lru<STORAGE> {
    /// The names the existence index holds, in insertion order.
    pub closed spec fn exists_seq(&self) -> Seq<Seq<char>> {
        self.exists@.map_values(|s: String| s@)
    }

    /// The existence index: every name known to have been written or read.
    pub open spec fn exists_view(&self) -> Set<Seq<char>> {
        self.exists_seq().to_set()
    }

    /// The cache entries, most recently used first.
    pub closed spec fn cache_view(&self) -> Seq<(Seq<char>, Seq<u8>)> {
        entries_view(self.cache@)
    }

    /// The cached payloads, as a map from name to bytes.
    pub open spec fn cache_map(&self) -> Map<Seq<char>, Seq<u8>> {
        sal_map(self.cache_view())
    }

    /// The wrapped backend, for use in contracts.
    pub closed spec fn spec_storage(&self) -> STORAGE {
        self.storage
    }

    /// The fixed capacity of the byte cache.
    pub closed spec fn spec_capacity(&self) -> usize {
        self.capacity
    }

    /// Internal well-formedness: distinct names in cache and index, a
    /// positive capacity, and no more entries than the capacity allows.
    pub open spec fn wf(&self) -> bool {
        &&& sal_distinct(self.cache_view())
        &&& self.exists_seq().no_duplicates()
        &&& self.cache_view().len() <= self.spec_capacity()
        &&& self.spec_capacity() >= 1
    }

    /// A fresh cache of capacity `size` over `storage`.
    pub fn new(size: usize, storage: STORAGE) -> (r: Self)
        requires
            size >= 1,
        ensures
            r.wf(),
            r.exists_view() == Set::<Seq<char>>::empty(),
            r.cache_view() == Seq::<(Seq<char>, Seq<u8>)>::empty(),
            r.spec_capacity() == size,
            r.spec_storage() == storage,
    {
        let r = Lru { exists: Vec::new(), cache: Vec::new(), capacity: size, storage };
        proof {
            assert(r.exists_view() =~= Set::<Seq<char>>::empty());
            assert(r.cache_view() =~= Seq::<(Seq<char>, Seq<u8>)>::empty());
        }
        r
    }

    /// The index of the cache entry named `key`, if one is held.
    fn find_cache_index(&self, key: &str) -> (r: Option<usize>)
        ensures
            r matches Some(i) ==> i < self.cache_view().len() && self.cache_view()[i as int].0
                == key@,
            r is None ==> !sal_contains(self.cache_view(), key@),
    {
        let n = self.cache.len();
        let mut i: usize = 0;
        while i < n
            invariant
                i <= n,
                n == self.cache@.len(),
                forall|j: int| 0 <= j < i ==> self.cache@[j].0@ != key@,
            decreases n - i,
        {
            if str_eq(self.cache[i].0.as_str(), key) {
                return Some(i);
            }
            i += 1;
        }
        None
    }

    /// Whether the existence index holds `key`; local, no backend call.
    pub fn exists_inner(&self, key: &str) -> (r: bool)
        ensures
            r == self.exists_view().contains(key@),
    {
        let n = self.exists.len();
        let mut i: usize = 0;
        while i < n
            invariant
                i <= n,
                n == self.exists@.len(),
                forall|j: int| 0 <= j < i ==> self.exists@[j]@ != key@,
            decreases n - i,
        {
            if str_eq(self.exists[i].as_str(), key) {
                assert(self.exists_seq()[i as int] == key@);
                return true;
            }
            i += 1;
        }
        assert(forall|j: int|
            0 <= j < self.exists_seq().len() ==> self.exists_seq()[j] != key@);
        false
    }

    /// Mark `key` in the existence index.
    fn mark_exists(&mut self, key: String)
        requires
            old(self).exists_seq().no_duplicates(),
        ensures
            final(self).exists_seq().no_duplicates(),
            final(self).exists_view() == old(self).exists_view().insert(key@),
            final(self).cache == old(self).cache,
            final(self).capacity == old(self).capacity,
            final(self).spec_storage() == old(self).spec_storage(),
    {
        if self.exists_inner(key.as_str()) {
            proof {
                assert(self.exists_view() =~= self.exists_view().insert(key@));
            }
        } else {
            let ghost old_seq = self.exists_seq();
            self.exists.push(key);
            proof {
                assert(self.exists_seq() =~= old_seq.push(key@));
                assert forall|x: Seq<char>|
                    self.exists_view().contains(x) <==> old_seq.to_set().insert(key@).contains(
                        x,
                    ) by {
                    if self.exists_view().contains(x) {
                        let j = choose|j: int|
                            0 <= j < self.exists_seq().len() && self.exists_seq()[j] == x;
                        if j < old_seq.len() {
                            assert(old_seq[j] == x);
                        }
                    }
                    if old_seq.to_set().contains(x) {
                        let j = choose|j: int| 0 <= j < old_seq.len() && old_seq[j] == x;
                        assert(self.exists_seq()[j] == x);
                    }
                    if x == key@ {
                        assert(self.exists_seq()[old_seq.len() as int] == x);
                    }
                }
                assert(self.exists_view() =~= old_seq.to_set().insert(key@));
            }
        }
    }

    /// Put `value` under `key` in the byte cache and mark existence; the
    /// least-recently-used entry is evicted when the capacity overflows.
    /// A local operation: it never contacts the backend.
    pub fn put_bytes_inner(&mut self, key: String, value: Vec<u8>)
        requires
            old(self).wf(),
        ensures
            final(self).wf(),
            final(self).cache_view() == lru_put_entries(
                old(self).cache_view(),
                key@,
                value@,
                old(self).spec_capacity() as int,
            ),
            final(self).exists_view() == old(self).exists_view().insert(key@),
            final(self).spec_capacity() == old(self).spec_capacity(),
            final(self).spec_storage() == old(self).spec_storage(),
    {
        let ghost old_view = self.cache_view();
        let ghost k = key@;
        let ghost v = value@;
        let key_for_index = key.clone();
        match self.find_cache_index(key.as_str()) {
            Some(i) => {
                proof {
                    lemma_sal_index(old_view, i as int);
                }
                self.cache.remove(i);
                proof {
                    assert(self.cache_view() =~= sal_remove(old_view, k));
                }
            },
            None => {},
        }
        let ghost removed = self.cache_view();
        self.cache.insert(0, (key, value));
        proof {
            assert(self.cache_view() =~= seq![(k, v)] + removed);
        }
        if self.cache.len() > self.capacity {
            let ghost before_pop = self.cache_view();
            self.cache.pop();
            proof {
                assert(self.cache_view() =~= before_pop.take(before_pop.len() - 1));
            }
        }
        proof {
            lemma_sal_remove(old_view, k);
            let full = seq![(k, v)] + sal_remove(old_view, k);
            assert(full[0] == (k, v));
            assert forall|a: int, b: int| 0 <= a < b < full.len() implies full[a].0
                != full[b].0 by {
                if a == 0 {
                    assert(full[b] == sal_remove(old_view, k)[b - 1]);
                    assert(sal_contains(sal_remove(old_view, k), full[b].0)) by {
                        assert(sal_remove(old_view, k)[b - 1].0 == full[b].0);
                    }
                } else {
                    assert(full[a] == sal_remove(old_view, k)[a - 1]);
                    assert(full[b] == sal_remove(old_view, k)[b - 1]);
                }
            }
            assert(self.cache_view() == lru_put_entries(
                old_view,
                k,
                v,
                self.spec_capacity() as int,
            ));
            assert forall|a: int, b: int|
                0 <= a < b < self.cache_view().len() implies self.cache_view()[a].0
                != self.cache_view()[b].0 by {
                assert(self.cache_view()[a] == full[a]);
                assert(self.cache_view()[b] == full[b]);
            }
        }
        self.mark_exists(key_for_index);
    }

    /// The cached payload under `key`, touching its recency; `None` when
    /// the byte cache does not hold the name. A local operation.
    pub fn get_bytes_inner(&mut self, key: &str) -> (r: Option<Vec<u8>>)
        requires
            old(self).wf(),
        ensures
            final(self).wf(),
            final(self).cache_view() == lru_touch_entries(old(self).cache_view(), key@),
            final(self).exists_view() == old(self).exists_view(),
            final(self).spec_capacity() == old(self).spec_capacity(),
            final(self).spec_storage() == old(self).spec_storage(),
            r matches Some(v) ==> sal_contains(old(self).cache_view(), key@) && v@ == sal_get(
                old(self).cache_view(),
                key@,
            ),
            r is None ==> !sal_contains(old(self).cache_view(), key@),
    {
        let ghost old_view = self.cache_view();
        let ghost k = key@;
        match self.find_cache_index(key) {
            Some(i) => {
                proof {
                    lemma_sal_index(old_view, i as int);
                }
                let entry = self.cache.remove(i);
                proof {
                    assert(self.cache_view() =~= sal_remove(old_view, k));
                }
                let out = clone_bytes(&entry.1);
                let ghost removed = self.cache_view();
                self.cache.insert(0, entry);
                proof {
                    assert(self.cache_view() =~= seq![(k, sal_get(old_view, k))] + removed);
                    lemma_sal_remove(old_view, k);
                    assert forall|a: int, b: int|
                        0 <= a < b < self.cache_view().len() implies self.cache_view()[a].0
                        != self.cache_view()[b].0 by {
                        if a == 0 {
                            assert(self.cache_view()[b] == removed[b - 1]);
                            assert(sal_contains(removed, self.cache_view()[b].0)) by {
                                assert(removed[b - 1].0 == self.cache_view()[b].0);
                            }
                        } else {
                            assert(self.cache_view()[a] == removed[a - 1]);
                            assert(self.cache_view()[b] == removed[b - 1]);
                        }
                    }
                }
                Some(out)
            },
            None => None,
        }
    }

    /// Delimiter-scoped listing of the names the byte cache currently
    /// holds: a cache-scoped view that can under-report evicted names,
    /// never over-report.
    pub fn list_objects_inner(&self, prefix: &str) -> (r: ListKeyObjects)
        ensures
            r.wf(),
            r.to_set() == listing_spec(self.cache_map().dom(), prefix@),
    {
        proof {
            lemma_entry_names_dom(self.cache@);
        }
        list_keys(&self.cache, prefix)
    }

    /// Read `key` from the local structures alone: a payload only when
    /// the existence index knows the name and the byte cache holds it,
    /// deserialized with `parser`.
    pub fn get_object_cache_inner<VALUE: View, PARSER: Parser<VALUE>>(
        &mut self,
        key: &str,
        parser: &PARSER,
    ) -> (r: Result<Option<VALUE>, LruError>)
        requires
            old(self).wf(),
        ensures
            final(self).wf(),
            final(self).exists_view() == old(self).exists_view(),
            final(self).spec_capacity() == old(self).spec_capacity(),
            final(self).spec_storage() == old(self).spec_storage(),
            !old(self).exists_view().contains(key@) ==> r == Ok::<Option<VALUE>, LruError>(
                None,
            ) && final(self).cache_view() == old(self).cache_view(),
            old(self).exists_view().contains(key@) ==> final(self).cache_view()
                == lru_touch_entries(old(self).cache_view(), key@),
            old(self).exists_view().contains(key@) && !sal_contains(old(self).cache_view(), key@)
                ==> r == Ok::<Option<VALUE>, LruError>(None),
            old(self).exists_view().contains(key@) && sal_contains(old(self).cache_view(), key@)
                ==> (r matches Ok(o) ==> o is Some),
            old(self).exists_view().contains(key@) && sal_contains(old(self).cache_view(), key@)
                ==> forall|v: VALUE|
                parser.spec_encode(&v) == Some(sal_get(old(self).cache_view(), key@)) ==> (
                r matches Ok(o) && o matches Some(w) && w@ == v@),
    {
        let exists = self.exists_inner(key);
        if exists {
            match self.get_bytes_inner(key) {
                Some(bytes) => {
                    match parser.deserialize_value(bytes.as_slice()) {
                        Ok(w) => Ok(Some(w)),
                        Err(err) => Err(LruError::Parser(err)),
                    }
                },
                None => Ok(None),
            }
        } else {
            Ok(None)
        }
    }

    /// Serialize `value` with `parser`, store the bytes in the byte cache
    /// under `key`, and hand the serialized payload back. A local
    /// operation: the backend is not written.
    pub fn put_object_inner<VALUE: View, PARSER: Parser<VALUE>>(
        &mut self,
        key: String,
        value: &VALUE,
        parser: &PARSER,
    ) -> (r: Result<Vec<u8>, LruError>)
        requires
            old(self).wf(),
        ensures
            final(self).wf(),
            final(self).spec_capacity() == old(self).spec_capacity(),
            final(self).spec_storage() == old(self).spec_storage(),
            r matches Ok(b) ==> parser.spec_encode(value) == Some(b@) && final(self).cache_view()
                == lru_put_entries(
                old(self).cache_view(),
                key@,
                b@,
                old(self).spec_capacity() as int,
            ) && final(self).exists_view() == old(self).exists_view().insert(key@),
            r is Err ==> parser.spec_encode(value) is None && final(self).cache_view() == old(self).cache_view() && final(self).exists_view() == old(self).exists_view(),
    {
        match parser.serialize_value(value) {
            Ok(bytes) => {
                let out = clone_bytes(&bytes);
                self.put_bytes_inner(key, bytes);
                Ok(out)
            },
            Err(err) => Err(LruError::Parser(err)),
        }
    }
}

/// The bindings a put leaves in the cache: the fresh name is bound to the
/// fresh payload, and any other surviving binding was already there.
pub proof fn lemma_lru_put_entries(s: Seq<(Seq<char>, Seq<u8>)>, k: Seq<char>, v: Seq<u8>, cap: int)
    requires
        sal_distinct(s),
        s.len() <= cap,
        cap >= 1,
    ensures
        sal_distinct(lru_put_entries(s, k, v, cap)),
        lru_put_entries(s, k, v, cap).len() <= cap,
        sal_contains(lru_put_entries(s, k, v, cap), k),
        sal_get(lru_put_entries(s, k, v, cap), k) == v,
        forall|x: Seq<char>|
            x != k && #[trigger] sal_contains(lru_put_entries(s, k, v, cap), x) ==> sal_contains(
                s,
                x,
            ) && sal_get(lru_put_entries(s, k, v, cap), x) == sal_get(s, x),
{
    lemma_sal_remove(s, k);
    let full = seq![(k, v)] + sal_remove(s, k);
    assert(full[0] == (k, v));
    assert forall|a: int, b: int| 0 <= a < b < full.len() implies full[a].0 != full[b].0 by {
        if a == 0 {
            assert(full[b] == sal_remove(s, k)[b - 1]);
            assert(sal_contains(sal_remove(s, k), full[b].0)) by {
                assert(sal_remove(s, k)[b - 1].0 == full[b].0);
            }
        } else {
            assert(full[a] == sal_remove(s, k)[a - 1]);
            assert(full[b] == sal_remove(s, k)[b - 1]);
        }
    }
    let r = lru_put_entries(s, k, v, cap);
    assert(r[0] == (k, v));
    assert forall|a: int, b: int| 0 <= a < b < r.len() implies r[a].0 != r[b].0 by {
        assert(r[a] == full[a]);
        assert(r[b] == full[b]);
    }
    lemma_sal_index(r, 0);
    assert forall|x: Seq<char>|
        x != k && #[trigger] sal_contains(r, x) implies sal_contains(s, x) && sal_get(r, x)
        == sal_get(s, x) by {
        let j = choose|j: int| 0 <= j < r.len() && r[j].0 == x;
        assert(r[j] == full[j]);
        assert(j >= 1);
        assert(full[j] == sal_remove(s, k)[j - 1]);
        assert(sal_contains(sal_remove(s, k), x)) by {
            assert(sal_remove(s, k)[j - 1].0 == x);
        }
        lemma_sal_index(r, j);
        assert(sal_get(r, x) == sal_remove(s, k)[j - 1].1);
        lemma_sal_remove(s, k);
        let i0 = choose|i0: int| 0 <= i0 < s.len() && s[i0].0 == x;
        lemma_sal_index(s, i0);
        lemma_sal_remove(s, k);
        assert(sal_get(sal_remove(s, k), x) == sal_get(s, x));
        assert(sal_distinct(sal_remove(s, k)));
        let j2 = choose|j2: int|
            0 <= j2 < sal_remove(s, k).len() && sal_remove(s, k)[j2].0 == x;
        lemma_sal_index(sal_remove(s, k), j2);
        lemma_sal_index(sal_remove(s, k), j - 1);
    }
}

/// A touch keeps exactly the bindings the cache had.
pub proof fn lemma_lru_touch_entries(s: Seq<(Seq<char>, Seq<u8>)>, k: Seq<char>)
    requires
        sal_distinct(s),
    ensures
        sal_distinct(lru_touch_entries(s, k)),
        lru_touch_entries(s, k).len() == s.len(),
        forall|x: Seq<char>|
            #[trigger] sal_contains(lru_touch_entries(s, k), x) == sal_contains(s, x),
        forall|x: Seq<char>|
            sal_contains(s, x) ==> #[trigger] sal_get(lru_touch_entries(s, k), x) == sal_get(s, x),
{
    if sal_contains(s, k) {
        lemma_sal_remove(s, k);
        let t = lru_touch_entries(s, k);
        assert(t == seq![(k, sal_get(s, k))] + sal_remove(s, k));
        assert(t[0] == (k, sal_get(s, k)));
        assert forall|a: int, b: int| 0 <= a < b < t.len() implies t[a].0 != t[b].0 by {
            if a == 0 {
                assert(t[b] == sal_remove(s, k)[b - 1]);
                assert(sal_contains(sal_remove(s, k), t[b].0)) by {
                    assert(sal_remove(s, k)[b - 1].0 == t[b].0);
                }
            } else {
                assert(t[a] == sal_remove(s, k)[a - 1]);
                assert(t[b] == sal_remove(s, k)[b - 1]);
            }
        }
        assert forall|x: Seq<char>| #[trigger] sal_contains(t, x) == sal_contains(s, x) by {
            if sal_contains(t, x) {
                let j = choose|j: int| 0 <= j < t.len() && t[j].0 == x;
                if j == 0 {
                    assert(sal_contains(s, k));
                } else {
                    assert(t[j] == sal_remove(s, k)[j - 1]);
                    assert(sal_contains(sal_remove(s, k), x)) by {
                        assert(sal_remove(s, k)[j - 1].0 == x);
                    }
                }
            }
            if sal_contains(s, x) {
                if x == k {
                    assert(t[0].0 == x);
                } else {
                    assert(sal_contains(sal_remove(s, k), x));
                    let j2 = choose|j2: int|
                        0 <= j2 < sal_remove(s, k).len() && sal_remove(s, k)[j2].0 == x;
                    assert(t[j2 + 1].0 == x);
                }
            }
        }
        assert forall|x: Seq<char>| sal_contains(s, x) implies #[trigger] sal_get(t, x)
            == sal_get(s, x) by {
            if x == k {
                lemma_sal_index(t, 0);
            } else {
                assert(sal_contains(sal_remove(s, k), x));
                let j2 = choose|j2: int|
                    0 <= j2 < sal_remove(s, k).len() && sal_remove(s, k)[j2].0 == x;
                assert(t[j2 + 1] == sal_remove(s, k)[j2]);
                lemma_sal_index(t, j2 + 1);
                lemma_sal_index(sal_remove(s, k), j2);
            }
        }
    }
}

impl<STORAGE: Sink> Lru<STORAGE> {
    /// The whole observable state: index, cache entries, backend objects.
    pub open spec fn state(&self) -> CacheState {
        CacheState {
            index: self.exists_view(),
            entries: self.cache_view(),
            backend: self.spec_storage().objects(),
        }
    }

    /// True exactly when the existence index holds the key's name; a
    /// local answer, the backend is not consulted.
    pub fn exists_copy<DKEY: DKey, PARSER>(
        &self,
        key_with_parser: &DKeyWithParserCopy<'_, DKEY, PARSER>,
    ) -> (r: Result<bool, LruError>)
        ensures
            r == Ok::<bool, LruError>(
                self.exists_view().contains(key_with_parser.spec_key().spec_name()),
            ),
    {
        let name = key_with_parser.key().name();
        Ok(self.exists_inner(name.as_str()))
    }

    /// Write-through byte put: the backend is written first; only after
    /// it confirms are the byte cache and the existence index updated.
    pub fn put_bytes_copy<DKEY: DKey>(&mut self, key: &DKEY, mime: String, value: Vec<u8>) -> (r:
        Result<(), LruError>)
        requires
            old(self).wf(),
            old(self).spec_storage().inv(),
        ensures
            final(self).wf(),
            final(self).spec_storage().inv(),
            final(self).spec_capacity() == old(self).spec_capacity(),
            r is Ok ==> final(self).state() == spec_put_bytes(
                old(self).state(),
                key.spec_name(),
                value@,
                old(self).spec_capacity() as int,
            ),
            r is Err ==> final(self).state() == old(self).state(),
            old(self).spec_storage().infallible() ==> r is Ok,
            final(self).spec_storage().infallible() == old(self).spec_storage().infallible(),
    {
        let name = key.name();
        let cache_copy = clone_bytes(&value);
        match self.storage.put_bytes_copy(key, mime, value) {
            Ok(()) => {
                self.put_bytes_inner(name, cache_copy);
                Ok(())
            },
            Err(err) => Err(err),
        }
    }

    /// Write-through typed put: serialize, write the backend, then update
    /// the local structures; a serialization failure touches nothing.
    pub fn put_object_copy<VALUE: View, DKEY: DKey, PARSER: Parser<VALUE>>(
        &mut self,
        key_with_parser: &DKeyWithParserCopy<'_, DKEY, PARSER>,
        value: &VALUE,
    ) -> (r: Result<(), LruError>)
        requires
            old(self).wf(),
            old(self).spec_storage().inv(),
        ensures
            final(self).wf(),
            final(self).spec_storage().inv(),
            final(self).spec_capacity() == old(self).spec_capacity(),
            r is Ok ==> key_with_parser.spec_parser().spec_encode(value) is Some && final(self).state() == spec_put_bytes(
                old(self).state(),
                key_with_parser.spec_key().spec_name(),
                key_with_parser.spec_parser().spec_encode(value)->Some_0,
                old(self).spec_capacity() as int,
            ),
            r is Err ==> final(self).state() == old(self).state(),
            old(self).spec_storage().infallible() ==> (r is Ok
                <==> key_with_parser.spec_parser().spec_encode(value) is Some),
            final(self).spec_storage().infallible() == old(self).spec_storage().infallible(),
    {
        let name = key_with_parser.key().name();
        match key_with_parser.parser().serialize_value(value) {
            Ok(bytes) => {
                let cache_copy = clone_bytes(&bytes);
                let mime = key_with_parser.parser().mime();
                match self.storage.put_bytes_copy(key_with_parser.key(), mime, bytes) {
                    Ok(()) => {
                        self.put_bytes_inner(name, cache_copy);
                        Ok(())
                    },
                    Err(err) => Err(err),
                }
            },
            Err(err) => Err(LruError::Parser(err)),
        }
    }

    /// The cached payload under the key's name, touching its recency; a
    /// local answer, the backend is not consulted.
    pub fn get_bytes_copy<DKEY: DKey>(&mut self, key: &DKEY) -> (r: Result<
        Option<Vec<u8>>,
        LruError,
    >)
        requires
            old(self).wf(),
        ensures
            final(self).wf(),
            final(self).exists_view() == old(self).exists_view(),
            final(self).spec_capacity() == old(self).spec_capacity(),
            final(self).spec_storage() == old(self).spec_storage(),
            final(self).cache_view() == lru_touch_entries(
                old(self).cache_view(),
                key.spec_name(),
            ),
            r is Ok,
            r->Ok_0 matches Some(v) ==> sal_contains(old(self).cache_view(), key.spec_name())
                && v@ == sal_get(old(self).cache_view(), key.spec_name()),
            r->Ok_0 is None ==> !sal_contains(old(self).cache_view(), key.spec_name()),
    {
        let name = key.name();
        Ok(self.get_bytes_inner(name.as_str()))
    }

    /// Read-through typed get. A name the existence index knows and the
    /// byte cache holds is served locally, without contacting the
    /// backend; otherwise the backend is read, and a payload found there
    /// repopulates the byte cache and the existence index.
    pub fn get_object_copy<VALUE: View, DKEY: DKey, PARSER: Parser<VALUE>>(
        &mut self,
        key_with_parser: &DKeyWithParserCopy<'_, DKEY, PARSER>,
    ) -> (r: Result<Option<VALUE>, LruError>)
        requires
            old(self).wf(),
            old(self).spec_storage().inv(),
        ensures
            final(self).wf(),
            final(self).spec_capacity() == old(self).spec_capacity(),
            final(self).spec_storage() == old(self).spec_storage(),
            spec_get_cached(old(self).state(), key_with_parser.spec_key().spec_name())
                matches Some(b) ==> final(self).cache_view() == lru_touch_entries(
                old(self).cache_view(),
                key_with_parser.spec_key().spec_name(),
            ) && final(self).exists_view() == old(self).exists_view() && (forall|v: VALUE|
                key_with_parser.spec_parser().spec_encode(&v) == Some(b) ==> (r matches Ok(o)
                    && o matches Some(w) && w@ == v@)),
            spec_get_cached(old(self).state(), key_with_parser.spec_key().spec_name()) is None
                ==> {
                &&& (r matches Ok(o) ==> (o is None <==> !old(self).spec_storage().objects().contains_key(
                    key_with_parser.spec_key().spec_name(),
                )))
                &&& (r matches Ok(o) && o is Some ==> final(self).cache_view()
                    == lru_put_entries(
                    old(self).cache_view(),
                    key_with_parser.spec_key().spec_name(),
                    old(self).spec_storage().objects()[key_with_parser.spec_key().spec_name()],
                    old(self).spec_capacity() as int,
                ) && final(self).exists_view() == old(self).exists_view().insert(
                    key_with_parser.spec_key().spec_name(),
                ) && (forall|v: VALUE|
                    key_with_parser.spec_parser().spec_encode(&v) == Some(
                        old(self).spec_storage().objects()[key_with_parser.spec_key().spec_name()],
                    ) ==> (r->Ok_0 matches Some(w) && w@ == v@)))
                &&& (r matches Ok(o) && o is None ==> final(self).cache_view() == old(self).cache_view() && final(self).exists_view() == old(self).exists_view())
            },
            r is Err ==> final(self).exists_view() == old(self).exists_view() && (final(self).cache_view() == old(self).cache_view() || final(self).cache_view()
                == lru_touch_entries(
                old(self).cache_view(),
                key_with_parser.spec_key().spec_name(),
            )),
            old(self).spec_storage().infallible() && spec_get_cached(
                old(self).state(),
                key_with_parser.spec_key().spec_name(),
            ) is None && !old(self).spec_storage().objects().contains_key(
                key_with_parser.spec_key().spec_name(),
            ) ==> r == Ok::<Option<VALUE>, LruError>(None),
    {
        let name = key_with_parser.key().name();
        let from_cache = self.get_object_cache_inner(name.as_str(), key_with_parser.parser());
        match from_cache {
            Err(err) => Err(err),
            Ok(Some(v)) => Ok(Some(v)),
            Ok(None) => {
                match self.storage.get_bytes_copy(name.as_str()) {
                    Err(err) => Err(err),
                    Ok(None) => Ok(None),
                    Ok(Some(bytes)) => {
                        match key_with_parser.parser().deserialize_value(bytes.as_slice()) {
                            Err(err) => Err(LruError::Parser(err)),
                            Ok(w) => {
                                let cache_copy = clone_bytes(&bytes);
                                self.put_bytes_inner(name, cache_copy);
                                Ok(Some(w))
                            },
                        }
                    },
                }
            },
        }
    }

    /// Delimiter-scoped listing served from the byte cache's names: a
    /// cache-scoped view that can under-report evicted names, never
    /// over-report.
    pub fn list_objects_copy(&self, prefix: &str) -> (r: Result<ListKeyObjects, LruError>)
        ensures
            r matches Ok(l) ==> l.wf() && l.to_set() == listing_spec(
                self.cache_map().dom(),
                prefix@,
            ),
            r is Ok,
    {
        Ok(self.list_objects_inner(prefix))
    }

    /// Write `value` only when the existence index does not hold the
    /// key's name: returns `true` and writes through when it was absent,
    /// `false` and changes nothing when it was present. The check and the
    /// write are two steps, not one atomic operation.
    pub fn put_object_if_not_exists_copy<VALUE: View, DKEY: DKey, PARSER: Parser<VALUE>>(
        &mut self,
        key_with_parser: &DKeyWithParserCopy<'_, DKEY, PARSER>,
        value: &VALUE,
    ) -> (r: Result<bool, LruError>)
        requires
            old(self).wf(),
            old(self).spec_storage().inv(),
        ensures
            final(self).wf(),
            final(self).spec_storage().inv(),
            final(self).spec_capacity() == old(self).spec_capacity(),
            r matches Ok(b) ==> b == spec_would_write(
                old(self).state(),
                key_with_parser.spec_key().spec_name(),
            ),
            r == Ok::<bool, LruError>(false) ==> final(self).state() == old(self).state(),
            r == Ok::<bool, LruError>(true) ==> key_with_parser.spec_parser().spec_encode(value)
                is Some && final(self).state() == spec_put_bytes(
                old(self).state(),
                key_with_parser.spec_key().spec_name(),
                key_with_parser.spec_parser().spec_encode(value)->Some_0,
                old(self).spec_capacity() as int,
            ),
            r is Err ==> final(self).state() == old(self).state(),
            old(self).spec_storage().infallible() ==> (r is Ok <==> (old(self).exists_view().contains(
                key_with_parser.spec_key().spec_name(),
            ) || key_with_parser.spec_parser().spec_encode(value) is Some)),
            final(self).spec_storage().infallible() == old(self).spec_storage().infallible(),
    {
        let name = key_with_parser.key().name();
        if self.exists_inner(name.as_str()) {
            Ok(false)
        } else {
            match self.put_object_copy(key_with_parser, value) {
                Ok(()) => Ok(true),
                Err(err) => Err(err),
            }
        }
    }
}

/// Write-once semantics: a conditional write of a name writes exactly
/// when the index does not hold it, and after any successful put of that
/// name — conditional or not — a conditional write of it writes nothing.
pub proof fn lemma_write_once(st: CacheState, k: Seq<char>, v: Seq<u8>, cap: int)
    ensures
        spec_would_write(st, k) == !st.index.contains(k),
        !spec_would_write(spec_put_bytes(st, k, v, cap), k),
{
}

/// Cache correctness: immediately after a put of `k`, a read of `k` is
/// served from the local structures alone — the backend plays no part —
/// and yields exactly the payload that was put.
pub proof fn lemma_get_after_put_cached(st: CacheState, k: Seq<char>, v: Seq<u8>, cap: int)
    requires
        sal_distinct(st.entries),
        st.entries.len() <= cap,
        cap >= 1,
    ensures
        spec_get_cached(spec_put_bytes(st, k, v, cap), k) == Some(v),
{
    lemma_lru_put_entries(st.entries, k, v, cap);
}

/// Eviction healing: whenever the backend holds a name — in particular
/// after the cache evicted its payload — a full read-through of that name
/// yields the backend's payload, coherence making a surviving cached copy
/// agree with it.
pub proof fn lemma_eviction_healing(st: CacheState, k: Seq<char>)
    requires
        coherent(st),
        st.backend.contains_key(k),
    ensures
        spec_get_full(st, k) == Some(st.backend[k]),
{
}

/// Absence: a read of a name the backend never held and the cache does
/// not hold yields nothing — an empty result, not an error.
pub proof fn lemma_absent_key(st: CacheState, k: Seq<char>)
    requires
        !st.backend.contains_key(k),
        !sal_contains(st.entries, k),
    ensures
        spec_get_full(st, k) is None,
{
}

/// The cache-scoped listing never over-reports: under coherence, every
/// name it can emit the backend's own listing emits too. It can only
/// under-report, for names whose payload was evicted.
pub proof fn lemma_cache_listing_no_over_report(st: CacheState, prefix: Seq<char>)
    requires
        coherent(st),
    ensures
        listing_spec(sal_map(st.entries).dom(), prefix).subset_of(
            listing_spec(st.backend.dom(), prefix),
        ),
{
    let cache_side = listing_spec(sal_map(st.entries).dom(), prefix);
    let backend_side = listing_spec(st.backend.dom(), prefix);
    assert forall|o: Seq<char>| cache_side.contains(o) implies backend_side.contains(o) by {
        let k = choose|k: Seq<char>|
            sal_map(st.entries).dom().contains(k) && crate::storage::spec_starts_with(k, prefix)
                && crate::storage::radix_key_spec(prefix, k) == Some(o);
        assert(sal_contains(st.entries, k));
        assert(st.backend.dom().contains(k));
    }
}

/// A fresh, empty cache is coherent with any backend.
pub proof fn lemma_empty_coherent(st: CacheState)
    requires
        st.entries == Seq::<(Seq<char>, Seq<u8>)>::empty(),
    ensures
        coherent(st),
{
    assert forall|x: Seq<char>| !(#[trigger] sal_contains(st.entries, x)) by {}
}

/// A recency touch keeps the cache coherent with the backend: the
/// bindings do not change.
pub proof fn lemma_touch_preserves_coherent(st: CacheState, k: Seq<char>)
    requires
        coherent(st),
        sal_distinct(st.entries),
    ensures
        coherent(CacheState { entries: lru_touch_entries(st.entries, k), ..st }),
{
    lemma_lru_touch_entries(st.entries, k);
}

/// A read-through heal keeps the cache coherent with the backend: the
/// payload it caches is the backend's own.
pub proof fn lemma_heal_preserves_coherent(st: CacheState, k: Seq<char>, cap: int)
    requires
        coherent(st),
        sal_distinct(st.entries),
        st.entries.len() <= cap,
        cap >= 1,
        st.backend.contains_key(k),
    ensures
        coherent(
            CacheState {
                index: st.index.insert(k),
                entries: lru_put_entries(st.entries, k, st.backend[k], cap),
                backend: st.backend,
            },
        ),
{
    lemma_lru_put_entries(st.entries, k, st.backend[k], cap);
    let entries2 = lru_put_entries(st.entries, k, st.backend[k], cap);
    assert forall|x: Seq<char>| #[trigger] sal_contains(entries2, x) implies st.backend.contains_key(x)
        && sal_get(entries2, x) == st.backend[x] by {
        if x != k {
            assert(sal_contains(st.entries, x));
        }
    }
}

/// A write-through put keeps the cache coherent with the backend.
pub proof fn lemma_put_preserves_coherent(st: CacheState, k: Seq<char>, v: Seq<u8>, cap: int)
    requires
        coherent(st),
        sal_distinct(st.entries),
        st.entries.len() <= cap,
        cap >= 1,
    ensures
        coherent(spec_put_bytes(st, k, v, cap)),
{
    lemma_lru_put_entries(st.entries, k, v, cap);
    let st2 = spec_put_bytes(st, k, v, cap);
    assert forall|x: Seq<char>| #[trigger] sal_contains(st2.entries, x) implies st2.backend.contains_key(x)
        && sal_get(st2.entries, x) == st2.backend[x] by {
        if x != k {
            assert(sal_contains(st.entries, x));
        }
    }
}

} // verus!
