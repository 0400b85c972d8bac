//! Shared storage vocabulary: the error taxonomy, the delimiter-based
//! listing algorithm (`radix_key`), and the set of names a listing returns.

use vstd::prelude::*;
use vstd::string::StrSliceExecFns;
use vstd::string::StringExecFns;

use crate::storage::direct::DKey;
use crate::storage::direct::DKeyWithParserCopy;
use crate::storage::parser::Parser;

pub mod cache;
pub mod direct;
pub mod memory;
pub mod parser;
pub mod parser_zerocopy;

verus! {

/// Parser (codec) failure: the payload could not be encoded or decoded.
/// Carries the underlying message; it never partially mutates storage.
#[derive(Debug)]
pub enum ParserError {
    Serde { internal: String },
}

impl ParserError {
    /// The underlying message carried by this error.
    pub open spec fn internal_view(&self) -> Seq<char> {
        match self {
            ParserError::Serde { internal } => internal@,
        }
    }

    /// Human-readable description of the failure.
    pub fn message(&self) -> (r: String)
        ensures
            r@ == "Can not serde : "@ + self.internal_view(),
    {
        match self {
            ParserError::Serde { internal } => {
                String::from_str("Can not serde : ").concat(internal.as_str())
            },
        }
    }
}

/// Failure of the remote object-store backend, tagged with the operation
/// and the key or prefix it concerned.
#[derive(Debug)]
pub enum S3Error {
    Serde(ParserError),
    S3Bucket { operation: String, bucket: String, internal: String },
    S3Object { operation: String, key: String, internal: String },
    S3List { operation: String, prefix: String, internal: Option<String> },
    S3Exists { operation: String, key: String, internal: String },
    S3ListHandle,
    NotExistsObject(String),
    EnvConfig(String),
}

impl From<ParserError> for S3Error {
    fn from(value: ParserError) -> (r: Self) {
        S3Error::Serde(value)
    }
}

impl vstd::std_specs::convert::FromSpecImpl<ParserError> for S3Error {
    open spec fn obeys_from_spec() -> bool {
        true
    }

    open spec fn from_spec(t: ParserError) -> Self {
        S3Error::Serde(t)
    }
}

/// Failure of the in-process backend; only the parser can fail there.
#[derive(Debug)]
pub enum MemoryError {
    Serde(ParserError),
}

impl MemoryError {
    /// Human-readable description of the failure.
    pub fn message(&self) -> (r: String)
        ensures
            match self {
                MemoryError::Serde(e) => r@ == "ParseMemory: Can not serde : "@ + e.internal_view(),
            },
    {
        match self {
            MemoryError::Serde(err) => {
                let r = String::from_str("ParseMemory: ").concat(err.message().as_str());
                proof {
                    reveal_strlit("ParseMemory: ");
                    reveal_strlit("Can not serde : ");
                    reveal_strlit("ParseMemory: Can not serde : ");
                    assert(r@ =~= "ParseMemory: Can not serde : "@ + err.internal_view());
                }
                r
            },
        }
    }
}

impl From<ParserError> for MemoryError {
    fn from(value: ParserError) -> (r: Self) {
        MemoryError::Serde(value)
    }
}

impl vstd::std_specs::convert::FromSpecImpl<ParserError> for MemoryError {
    open spec fn obeys_from_spec() -> bool {
        true
    }

    open spec fn from_spec(t: ParserError) -> Self {
        MemoryError::Serde(t)
    }
}

/// Failure surfaced by the cache decorator: either the wrapped backend
/// failed, or a parser did.
#[derive(Debug)]
pub enum LruError {
    S3(S3Error),
    Memory(MemoryError),
    Parser(ParserError),
}

impl From<MemoryError> for LruError {
    fn from(value: MemoryError) -> (r: Self) {
        LruError::Memory(value)
    }
}

impl vstd::std_specs::convert::FromSpecImpl<MemoryError> for LruError {
    open spec fn obeys_from_spec() -> bool {
        true
    }

    open spec fn from_spec(t: MemoryError) -> Self {
        LruError::Memory(t)
    }
}

impl From<S3Error> for LruError {
    fn from(value: S3Error) -> (r: Self) {
        LruError::S3(value)
    }
}

impl vstd::std_specs::convert::FromSpecImpl<S3Error> for LruError {
    open spec fn obeys_from_spec() -> bool {
        true
    }

    open spec fn from_spec(t: S3Error) -> Self {
        LruError::S3(t)
    }
}

impl From<ParserError> for LruError {
    fn from(value: ParserError) -> (r: Self) {
        LruError::Parser(value)
    }
}

impl vstd::std_specs::convert::FromSpecImpl<ParserError> for LruError {
    open spec fn obeys_from_spec() -> bool {
        true
    }

    open spec fn from_spec(t: ParserError) -> Self {
        LruError::Parser(t)
    }
}

/// `p` is a prefix of `s`, character-wise.
pub open spec fn spec_starts_with(s: Seq<char>, p: Seq<char>) -> bool {
    s.len() >= p.len() && s.subrange(0, p.len() as int) == p
}

/// An independent copy of a byte payload.
pub fn clone_bytes(v: &Vec<u8>) -> (r: Vec<u8>)
    ensures
        r@ == v@,
{
    let mut out: Vec<u8> = Vec::new();
    let m = v.len();
    let mut j: usize = 0;
    while j < m
        invariant
            j <= m,
            m == v@.len(),
            out@ == v@.take(j as int),
        decreases m - j,
    {
        out.push(v[j]);
        proof {
            assert(out@ =~= v@.take(j as int + 1));
        }
        j += 1;
    }
    proof {
        assert(v@.take(m as int) =~= v@);
    }
    out
}

/// Character-wise equality of two string slices.
pub fn str_eq(a: &str, b: &str) -> (r: bool)
    ensures
        r == (a@ == b@),
{
    let owned_a = a.to_owned();
    let owned_b = b.to_owned();
    owned_a == owned_b
}

/// Whether `s` starts with `prefix`, character-wise.
pub fn str_starts_with(s: &str, prefix: &str) -> (r: bool)
    ensures
        r == spec_starts_with(s@, prefix@),
{
    let n = s.unicode_len();
    let p = prefix.unicode_len();
    if p > n {
        false
    } else {
        let head = s.substring_char(0, p);
        str_eq(head, prefix)
    }
}

/// The smallest index at or after `from` where `s` holds the delimiter.
pub open spec fn first_delim(s: Seq<char>, from: int) -> Option<int>
    recommends
        0 <= from <= s.len(),
    decreases s.len() - from when 0 <= from <= s.len()
{
    if from >= s.len() {
        None
    } else if s[from] == '/' {
        Some(from)
    } else {
        first_delim(s, from + 1)
    }
}

proof fn lemma_first_delim_found(s: Seq<char>, from: int, i: int)
    requires
        0 <= from <= i < s.len(),
        s[i] == '/',
        forall|j: int| from <= j < i ==> s[j] != '/',
    ensures
        first_delim(s, from) == Some(i),
    decreases i - from,
{
    if from < i {
        lemma_first_delim_found(s, from + 1, i);
    }
}

proof fn lemma_first_delim_bounds(s: Seq<char>, from: int)
    requires
        0 <= from <= s.len(),
    ensures
        match first_delim(s, from) {
            Some(i) => from <= i < s.len() && s[i] == '/',
            None => true,
        },
    decreases s.len() - from,
{
    if from < s.len() && s[from] != '/' {
        lemma_first_delim_bounds(s, from + 1);
    }
}

proof fn lemma_first_delim_none(s: Seq<char>, from: int)
    requires
        0 <= from <= s.len(),
        forall|j: int| from <= j < s.len() ==> s[j] != '/',
    ensures
        first_delim(s, from) == None::<int>,
    decreases s.len() - from,
{
    if from < s.len() {
        lemma_first_delim_none(s, from + 1);
    }
}

/// Find the first delimiter of `s` at or after position `from`.
fn find_delim(s: &str, from: usize) -> (r: Option<usize>)
    requires
        from <= s@.len(),
    ensures
        r == match first_delim(s@, from as int) {
            Some(i) => Some(i as usize),
            None => None::<usize>,
        },
{
    let n = s.unicode_len();
    let mut i = from;
    while i < n
        invariant
            from <= i <= n,
            n == s@.len(),
            forall|j: int| from <= j < i ==> s@[j] != '/',
        decreases n - i,
    {
        if s.get_char(i) == '/' {
            proof {
                lemma_first_delim_found(s@, from as int, i as int);
            }
            return Some(i);
        }
        i += 1;
    }
    proof {
        lemma_first_delim_none(s@, from as int);
    }
    None
}

/// What a listing emits for one stored name `key` under a query `prefix`:
/// the name itself when the part after the prefix holds no delimiter, the
/// one-level rollup `prefix` + segment + `/` when it does, and nothing when
/// the delimiter stands immediately after the prefix.
pub open spec fn radix_key_spec(prefix: Seq<char>, key: Seq<char>) -> Option<Seq<char>>
    recommends
        spec_starts_with(key, prefix),
{
    match first_delim(key, prefix.len() as int) {
        None => Some(key),
        Some(i) => if i == prefix.len() {
            None
        } else {
            Some(key.subrange(0, i + 1))
        },
    }
}

/// Group one stored name under a query prefix: a leaf directly under the
/// prefix is emitted unchanged; a name one or more levels deeper is rolled
/// up to `prefix` + first segment + `/`; a delimiter immediately after the
/// prefix suppresses the name.
pub fn radix_key(prefix: &str, key: &String) -> (r: Option<String>)
    requires
        spec_starts_with(key@, prefix@),
    ensures
        r matches Some(o) ==> radix_key_spec(prefix@, key@) == Some(o@),
        r is None ==> radix_key_spec(prefix@, key@) is None,
{
    let prefix_len = prefix.unicode_len();
    let key_len = key.as_str().unicode_len();
    proof {
        lemma_first_delim_bounds(key@, prefix_len as int);
    }
    match find_delim(key.as_str(), prefix_len) {
        None => Some(key.clone()),
        Some(i) => {
            if i == prefix_len {
                None
            } else {
                Some(key.as_str().substring_char(0, i + 1).to_owned())
            }
        },
    }
}

/// The uniform contract of a byte-object backend: existence check, typed
/// and byte-level writes, typed and byte-level reads, and delimiter-scoped
/// listing. The backend's contents are modelled as a map from name to
/// payload; the content-type tag is advisory metadata and carries no
/// behavioral contract.
pub trait Sink: Sized {
    /// The backend's internal well-formedness.
    spec fn inv(&self) -> bool;

    /// The objects held, as a map from name to byte payload.
    spec fn objects(&self) -> Map<Seq<char>, Seq<u8>>;

    /// Whether this backend's transport cannot fail: true of an
    /// in-process store, never promised of a remote one.
    spec fn infallible(&self) -> bool;

    /// True exactly when an object with that name currently exists.
    fn exists_copy<DKEY: DKey, PARSER>(
        &self,
        key_with_parser: &DKeyWithParserCopy<'_, DKEY, PARSER>,
    ) -> (r: Result<bool, LruError>)
        requires
            self.inv(),
        ensures
            r matches Ok(b) ==> b == self.objects().contains_key(
                key_with_parser.spec_key().spec_name(),
            ),
            self.infallible() ==> r is Ok,
    ;

    /// Serialize `value` and write it through; a serialization failure
    /// does not touch the backend at all.
    fn put_object_copy<VALUE: View, DKEY: DKey, PARSER: Parser<VALUE>>(
        &mut self,
        key_with_parser: &DKeyWithParserCopy<'_, DKEY, PARSER>,
        value: &VALUE,
    ) -> (r: Result<(), LruError>)
        requires
            old(self).inv(),
        ensures
            final(self).inv(),
            r is Ok ==> key_with_parser.spec_parser().spec_encode(value) is Some
                && final(self).objects() == old(self).objects().insert(
                key_with_parser.spec_key().spec_name(),
                key_with_parser.spec_parser().spec_encode(value)->Some_0,
            ),
            r is Err ==> final(self).objects() == old(self).objects(),
            old(self).infallible() ==> (r is Ok <==> key_with_parser.spec_parser().spec_encode(
                value,
            ) is Some),
            final(self).infallible() == old(self).infallible(),
    ;

    /// Unconditional byte-level overwrite; creates the object if absent.
    fn put_bytes_copy<DKEY: DKey>(&mut self, key: &DKEY, mime: String, value: Vec<u8>) -> (r:
        Result<(), LruError>)
        requires
            old(self).inv(),
        ensures
            final(self).inv(),
            r is Ok ==> final(self).objects() == old(self).objects().insert(
                key.spec_name(),
                value@,
            ),
            r is Err ==> final(self).objects() == old(self).objects(),
            old(self).infallible() ==> r is Ok,
            final(self).infallible() == old(self).infallible(),
    ;

    /// Read and deserialize the object with that name; absence is an
    /// empty result, not an error.
    fn get_object_copy<VALUE: View, DKEY: DKey, PARSER: Parser<VALUE>>(
        &self,
        key_with_parser: &DKeyWithParserCopy<'_, DKEY, PARSER>,
    ) -> (r: Result<Option<VALUE>, LruError>)
        requires
            self.inv(),
        ensures
            r is Ok && !self.objects().contains_key(key_with_parser.spec_key().spec_name())
                ==> r->Ok_0 is None,
            self.objects().contains_key(key_with_parser.spec_key().spec_name()) ==> forall|
                v: VALUE,
            |
                key_with_parser.spec_parser().spec_encode(&v) == Some(
                    self.objects()[key_with_parser.spec_key().spec_name()],
                ) ==> (r matches Ok(o) && o matches Some(w) && w@ == v@),
            self.infallible() && !self.objects().contains_key(
                key_with_parser.spec_key().spec_name(),
            ) ==> r is Ok,
    ;

    /// Read the raw byte payload of the object with that name.
    fn get_bytes_copy(&self, key: &str) -> (r: Result<Option<Vec<u8>>, LruError>)
        requires
            self.inv(),
        ensures
            r matches Ok(o) ==> match o {
                Some(v) => self.objects().contains_key(key@) && v@ == self.objects()[key@],
                None => !self.objects().contains_key(key@),
            },
            self.infallible() ==> r is Ok,
    ;

    /// Delimiter-scoped listing of the held names under `prefix`.
    fn list_objects_copy(&self, prefix: &str) -> (r: Result<ListKeyObjects, LruError>)
        requires
            self.inv(),
        ensures
            r matches Ok(l) ==> l.wf() && l.to_set() == listing_spec(
                self.objects().dom(),
                prefix@,
            ),
            self.infallible() ==> r is Ok,
    ;
}

/// Write `value` under its key only when no object with that name exists:
/// returns `true` and writes when the name was absent, returns `false`
/// and leaves the backend untouched when it was present. The existence
/// check and the write are two steps, not one atomic operation.
pub fn put_object_if_not_exists_copy<SINK: Sink, VALUE: View, DKEY: DKey, PARSER: Parser<VALUE>>(
    sink: &mut SINK,
    key_with_parser: &DKeyWithParserCopy<'_, DKEY, PARSER>,
    value: &VALUE,
) -> (r: Result<bool, LruError>)
    requires
        old(sink).inv(),
    ensures
        final(sink).inv(),
        r matches Ok(b) ==> (b == !old(sink).objects().contains_key(
            key_with_parser.spec_key().spec_name(),
        )),
        r == Ok::<bool, LruError>(true) ==> key_with_parser.spec_parser().spec_encode(value)
            is Some && final(sink).objects() == old(sink).objects().insert(
            key_with_parser.spec_key().spec_name(),
            key_with_parser.spec_parser().spec_encode(value)->Some_0,
        ),
        r == Ok::<bool, LruError>(false) ==> final(sink).objects() == old(sink).objects(),
        old(sink).infallible() ==> (r is Ok <==> (old(sink).objects().contains_key(
            key_with_parser.spec_key().spec_name(),
        ) || key_with_parser.spec_parser().spec_encode(value) is Some)),
{
    match sink.exists_copy(key_with_parser) {
        Ok(true) => Ok(false),
        Ok(false) => {
            match sink.put_object_copy(key_with_parser, value) {
                Ok(()) => Ok(true),
                Err(e) => Err(e),
            }
        },
        Err(e) => Err(e),
    }
}

/// The set of names a listing returns: a flat set of strings, with
/// duplicate rollup entries collapsed to one.
#[derive(Debug)]
pub struct ListKeyObjects {
    keys: Vec<String>,
}

impl ListKeyObjects {
    /// The names held, as a sequence of character sequences.
    pub closed spec fn key_views(&self) -> Seq<Seq<char>> {
        self.keys@.map_values(|k: String| k@)
    }

    /// The names held, as a set.
    pub open spec fn to_set(&self) -> Set<Seq<char>> {
        self.key_views().to_set()
    }

    /// No name is held twice.
    pub open spec fn wf(&self) -> bool {
        self.key_views().no_duplicates()
    }

    /// The empty set of names.
    pub fn new() -> (r: Self)
        ensures
            r.wf(),
            r.to_set() == Set::<Seq<char>>::empty(),
    {
        let r = ListKeyObjects { keys: Vec::new() };
        proof {
            assert(r.to_set() =~= Set::<Seq<char>>::empty());
        }
        r
    }

    /// Whether `name` is among the held names.
    pub fn contains(&self, name: &str) -> (r: bool)
        ensures
            r == self.to_set().contains(name@),
    {
        let n = self.keys.len();
        let mut i: usize = 0;
        while i < n
            invariant
                i <= n,
                n == self.keys@.len(),
                forall|j: int| 0 <= j < i ==> self.keys@[j]@ != name@,
            decreases n - i,
        {
            if str_eq(self.keys[i].as_str(), name) {
                assert(self.key_views()[i as int] == name@);
                return true;
            }
            i += 1;
        }
        assert(forall|j: int| 0 <= j < self.key_views().len() ==> self.key_views()[j] != name@);
        false
    }

    /// Add `name`; adding a name already held changes nothing.
    pub fn insert(&mut self, name: String)
        requires
            old(self).wf(),
        ensures
            final(self).wf(),
            final(self).to_set() == old(self).to_set().insert(name@),
    {
        if self.contains(name.as_str()) {
            proof {
                assert(self.to_set() =~= self.to_set().insert(name@));
            }
        } else {
            let ghost old_views = self.key_views();
            self.keys.push(name);
            proof {
                assert(self.key_views() =~= old_views.push(name@));
                assert forall|x: Seq<char>| self.to_set().contains(x) <==> old_views.to_set().insert(
                    name@,
                ).contains(x) by {
                    if self.to_set().contains(x) {
                        let j = choose|j: int|
                            0 <= j < self.key_views().len() && self.key_views()[j] == x;
                        if j < old_views.len() {
                            assert(old_views[j] == x);
                        }
                    }
                    if old_views.to_set().contains(x) {
                        let j = choose|j: int| 0 <= j < old_views.len() && old_views[j] == x;
                        assert(self.key_views()[j] == x);
                    }
                    if x == name@ {
                        assert(self.key_views()[old_views.len() as int] == x);
                    }
                }
                assert(self.to_set() =~= old_views.to_set().insert(name@));
            }
        }
    }

    /// How many names are held.
    pub fn len(&self) -> (r: usize)
        requires
            self.wf(),
        ensures
            r == self.to_set().len(),
    {
        proof {
            self.key_views().unique_seq_to_set();
        }
        self.keys.len()
    }

    /// Whether no name is held.
    pub fn is_empty(&self) -> (r: bool)
        requires
            self.wf(),
        ensures
            r == self.to_set().is_empty(),
    {
        let r = self.len() == 0;
        proof {
            self.key_views().unique_seq_to_set();
            if self.to_set().len() == 0 {
                assert(self.to_set() =~= Set::<Seq<char>>::empty());
            }
        }
        r
    }
}

/// The names stored in an association list of (name, payload) entries.
pub open spec fn entry_names(s: Seq<(String, Vec<u8>)>) -> Set<Seq<char>> {
    s.map_values(|p: (String, Vec<u8>)| p.0@).to_set()
}

/// The mathematical shape of a store's contents: (name, payload) entries.
pub open spec fn entries_view(v: Seq<(String, Vec<u8>)>) -> Seq<(Seq<char>, Seq<u8>)> {
    v.map_values(|p: (String, Vec<u8>)| (p.0@, p.1@))
}

/// Whether the association list `s` holds an entry named `k`.
pub open spec fn sal_contains(s: Seq<(Seq<char>, Seq<u8>)>, k: Seq<char>) -> bool {
    exists|i: int| 0 <= i < s.len() && s[i].0 == k
}

/// The index of the entry named `k`; meaningful when keys are distinct.
pub open spec fn sal_index(s: Seq<(Seq<char>, Seq<u8>)>, k: Seq<char>) -> int {
    choose|i: int| 0 <= i < s.len() && s[i].0 == k
}

/// The payload of the entry named `k`.
pub open spec fn sal_get(s: Seq<(Seq<char>, Seq<u8>)>, k: Seq<char>) -> Seq<u8> {
    s[sal_index(s, k)].1
}

/// The association list without the entry named `k`.
pub open spec fn sal_remove(s: Seq<(Seq<char>, Seq<u8>)>, k: Seq<char>) -> Seq<
    (Seq<char>, Seq<u8>),
> {
    if sal_contains(s, k) {
        s.remove(sal_index(s, k))
    } else {
        s
    }
}

/// No two entries share a name.
pub open spec fn sal_distinct(s: Seq<(Seq<char>, Seq<u8>)>) -> bool {
    forall|i: int, j: int| 0 <= i < j < s.len() ==> s[i].0 != s[j].0
}

/// The association list read as a map from name to payload.
pub open spec fn sal_map(s: Seq<(Seq<char>, Seq<u8>)>) -> Map<Seq<char>, Seq<u8>> {
    Map::new(|k: Seq<char>| sal_contains(s, k), |k: Seq<char>| sal_get(s, k))
}

/// With distinct names, the witness index of a name is unique.
pub proof fn lemma_sal_index(s: Seq<(Seq<char>, Seq<u8>)>, j: int)
    requires
        sal_distinct(s),
        0 <= j < s.len(),
    ensures
        sal_contains(s, s[j].0),
        sal_index(s, s[j].0) == j,
        sal_get(s, s[j].0) == s[j].1,
{
    let k = s[j].0;
    assert(sal_contains(s, k));
    let i = sal_index(s, k);
    assert(0 <= i < s.len() && s[i].0 == k);
    if i < j {
        assert(s[i].0 != s[j].0);
    } else if j < i {
        assert(s[j].0 != s[i].0);
    }
}

/// Removing a name keeps the others, with their payloads, and keeps
/// distinctness.
pub proof fn lemma_sal_remove(s: Seq<(Seq<char>, Seq<u8>)>, k: Seq<char>)
    requires
        sal_distinct(s),
    ensures
        sal_distinct(sal_remove(s, k)),
        !sal_contains(sal_remove(s, k), k),
        forall|x: Seq<char>|
            x != k ==> (#[trigger] sal_contains(sal_remove(s, k), x)) == sal_contains(s, x),
        forall|x: Seq<char>|
            x != k && sal_contains(s, x) ==> #[trigger] sal_get(sal_remove(s, k), x) == sal_get(
                s,
                x,
            ),
{
    if sal_contains(s, k) {
        let i = sal_index(s, k);
        assert(0 <= i < s.len() && s[i].0 == k);
        let r = s.remove(i);
        assert forall|a: int, b: int| 0 <= a < b < r.len() implies r[a].0 != r[b].0 by {
            let a0 = if a < i {
                a
            } else {
                a + 1
            };
            let b0 = if b < i {
                b
            } else {
                b + 1
            };
            assert(r[a] == s[a0] && r[b] == s[b0]);
        }
        assert forall|j: int| 0 <= j < r.len() implies r[j].0 != k by {
            let j0 = if j < i {
                j
            } else {
                j + 1
            };
            assert(r[j] == s[j0]);
            if j0 != i {
                lemma_sal_index(s, j0);
                if r[j].0 == k {
                    assert(sal_index(s, k) == j0);
                }
            }
        }
        assert forall|x: Seq<char>| x != k implies (#[trigger] sal_contains(r, x))
            == sal_contains(s, x) by {
            if sal_contains(r, x) {
                let j = choose|j: int| 0 <= j < r.len() && r[j].0 == x;
                let j0 = if j < i {
                    j
                } else {
                    j + 1
                };
                assert(s[j0] == r[j]);
                assert(sal_contains(s, x));
            }
            if sal_contains(s, x) {
                let j0 = choose|j0: int| 0 <= j0 < s.len() && s[j0].0 == x;
                assert(j0 != i);
                let j = if j0 < i {
                    j0
                } else {
                    j0 - 1
                };
                assert(r[j] == s[j0]);
                assert(sal_contains(r, x));
            }
        }
        assert forall|x: Seq<char>| x != k && sal_contains(s, x) implies #[trigger] sal_get(r, x)
            == sal_get(s, x) by {
            let j0 = choose|j0: int| 0 <= j0 < s.len() && s[j0].0 == x;
            lemma_sal_index(s, j0);
            assert(j0 != i);
            let j = if j0 < i {
                j0
            } else {
                j0 - 1
            };
            assert(r[j] == s[j0]);
            assert forall|a: int, b: int| 0 <= a < b < r.len() implies r[a].0 != r[b].0 by {
                let a0 = if a < i {
                    a
                } else {
                    a + 1
                };
                let b0 = if b < i {
                    b
                } else {
                    b + 1
                };
                assert(r[a] == s[a0] && r[b] == s[b0]);
            }
            lemma_sal_index(r, j);
        }
    }
}

/// Appending a fresh name binds it, and keeps every other binding.
pub proof fn lemma_sal_push(s: Seq<(Seq<char>, Seq<u8>)>, k: Seq<char>, v: Seq<u8>)
    requires
        sal_distinct(s),
        !sal_contains(s, k),
    ensures
        sal_distinct(s.push((k, v))),
        sal_map(s.push((k, v))) == sal_map(s).insert(k, v),
{
    let t = s.push((k, v));
    assert forall|a: int, b: int| 0 <= a < b < t.len() implies t[a].0 != t[b].0 by {
        if b == s.len() {
            if t[a].0 == k {
                assert(sal_contains(s, s[a].0));
            }
        }
    }
    assert forall|x: Seq<char>| #[trigger] sal_contains(t, x) <==> sal_contains(s, x) || x
        == k by {
        if sal_contains(t, x) {
            let j = choose|j: int| 0 <= j < t.len() && t[j].0 == x;
            if j < s.len() {
                assert(sal_contains(s, x));
            }
        }
        if sal_contains(s, x) {
            let j = choose|j: int| 0 <= j < s.len() && s[j].0 == x;
            assert(t[j].0 == x);
        }
        if x == k {
            assert(t[s.len() as int].0 == x);
        }
    }
    assert forall|x: Seq<char>| sal_contains(t, x) implies #[trigger] sal_get(t, x) == (if x == k {
        v
    } else {
        sal_get(s, x)
    }) by {
        if x == k {
            lemma_sal_index(t, s.len() as int);
        } else {
            let j = choose|j: int| 0 <= j < s.len() && s[j].0 == x;
            lemma_sal_index(s, j);
            lemma_sal_index(t, j);
        }
    }
    assert(sal_map(t) =~= sal_map(s).insert(k, v));
}

/// Replacing the entry named `k` (removing any old one, appending the new
/// payload) is exactly a map insert.
pub proof fn lemma_sal_put(s: Seq<(Seq<char>, Seq<u8>)>, k: Seq<char>, v: Seq<u8>)
    requires
        sal_distinct(s),
    ensures
        sal_distinct(sal_remove(s, k).push((k, v))),
        sal_map(sal_remove(s, k).push((k, v))) == sal_map(s).insert(k, v),
{
    lemma_sal_remove(s, k);
    let r = sal_remove(s, k);
    lemma_sal_push(r, k, v);
    assert forall|x: Seq<char>| #[trigger] sal_contains(s, x) || x == k implies sal_map(
        r.push((k, v)),
    ).contains_key(x) by {}
    assert(sal_map(r.push((k, v))) =~= sal_map(s).insert(k, v));
}

/// With distinct names, the map holds as many bindings as the list holds
/// entries.
pub proof fn lemma_sal_map_len(s: Seq<(Seq<char>, Seq<u8>)>)
    requires
        sal_distinct(s),
    ensures
        sal_map(s).dom().finite(),
        sal_map(s).dom().len() == s.len(),
{
    let keys = s.map_values(|p: (Seq<char>, Seq<u8>)| p.0);
    assert(keys.no_duplicates());
    keys.unique_seq_to_set();
    assert forall|x: Seq<char>| #[trigger] sal_map(s).dom().contains(x) <==> keys.to_set().contains(
        x,
    ) by {
        if sal_contains(s, x) {
            let j = choose|j: int| 0 <= j < s.len() && s[j].0 == x;
            assert(keys[j] == x);
        }
        if keys.to_set().contains(x) {
            let j = choose|j: int| 0 <= j < keys.len() && keys[j] == x;
            assert(s[j].0 == x);
        }
    }
    assert(sal_map(s).dom() =~= keys.to_set());
}

/// The names of an entry list are the domain of its map reading.
pub proof fn lemma_entry_names_dom(v: Seq<(String, Vec<u8>)>)
    ensures
        entry_names(v) == sal_map(entries_view(v)).dom(),
{
    assert forall|x: Seq<char>| #[trigger] entry_names(v).contains(x) <==> sal_contains(
        entries_view(v),
        x,
    ) by {
        let names = v.map_values(|p: (String, Vec<u8>)| p.0@);
        if names.to_set().contains(x) {
            let j = choose|j: int| 0 <= j < names.len() && names[j] == x;
            assert(entries_view(v)[j].0 == x);
        }
        if sal_contains(entries_view(v), x) {
            let j = choose|j: int| 0 <= j < entries_view(v).len() && entries_view(v)[j].0 == x;
            assert(names[j] == x);
        }
    }
    assert(entry_names(v) =~= sal_map(entries_view(v)).dom());
}

/// What a delimiter-scoped listing returns for a universe of stored
/// `names` and a query `prefix`: every name or one-level rollup that
/// `radix_key` emits for a stored name starting with the prefix.
pub open spec fn listing_spec(names: Set<Seq<char>>, prefix: Seq<char>) -> Set<Seq<char>> {
    Set::new(
        |o: Seq<char>|
            exists|k: Seq<char>|
                names.contains(k) && spec_starts_with(k, prefix) && radix_key_spec(prefix, k)
                    == Some(o),
    )
}

proof fn lemma_listing_insert(names: Set<Seq<char>>, prefix: Seq<char>, k: Seq<char>)
    ensures
        listing_spec(names.insert(k), prefix) == if spec_starts_with(k, prefix)
            && radix_key_spec(prefix, k) is Some {
            listing_spec(names, prefix).insert(radix_key_spec(prefix, k)->Some_0)
        } else {
            listing_spec(names, prefix)
        },
{
    let lhs = listing_spec(names.insert(k), prefix);
    if spec_starts_with(k, prefix) && radix_key_spec(prefix, k) is Some {
        let o_k = radix_key_spec(prefix, k)->Some_0;
        let rhs = listing_spec(names, prefix).insert(o_k);
        assert forall|o: Seq<char>| lhs.contains(o) implies rhs.contains(o) by {
            let w = choose|w: Seq<char>|
                names.insert(k).contains(w) && spec_starts_with(w, prefix) && radix_key_spec(
                    prefix,
                    w,
                ) == Some(o);
            if w != k {
                assert(names.contains(w));
            }
        }
        assert forall|o: Seq<char>| rhs.contains(o) implies lhs.contains(o) by {
            if o == o_k {
                assert(names.insert(k).contains(k));
            } else {
                let w = choose|w: Seq<char>|
                    names.contains(w) && spec_starts_with(w, prefix) && radix_key_spec(prefix, w)
                        == Some(o);
                assert(names.insert(k).contains(w));
            }
        }
        assert(lhs =~= rhs);
    } else {
        let rhs = listing_spec(names, prefix);
        assert forall|o: Seq<char>| lhs.contains(o) implies rhs.contains(o) by {
            let w = choose|w: Seq<char>|
                names.insert(k).contains(w) && spec_starts_with(w, prefix) && radix_key_spec(
                    prefix,
                    w,
                ) == Some(o);
            assert(w != k);
            assert(names.contains(w));
        }
        assert forall|o: Seq<char>| rhs.contains(o) implies lhs.contains(o) by {
            let w = choose|w: Seq<char>|
                names.contains(w) && spec_starts_with(w, prefix) && radix_key_spec(prefix, w)
                    == Some(o);
            assert(names.insert(k).contains(w));
        }
        assert(lhs =~= rhs);
    }
}

proof fn lemma_entry_names_take_step(s: Seq<(String, Vec<u8>)>, i: int)
    requires
        0 <= i < s.len(),
    ensures
        entry_names(s.take(i + 1)) == entry_names(s.take(i)).insert(s[i].0@),
{
    let f = |p: (String, Vec<u8>)| p.0@;
    let a = s.take(i + 1).map_values(f);
    let b = s.take(i).map_values(f);
    assert(a =~= b.push(s[i].0@));
    assert forall|x: Seq<char>|
        a.to_set().contains(x) <==> b.to_set().insert(s[i].0@).contains(x) by {
        if a.to_set().contains(x) {
            let j = choose|j: int| 0 <= j < a.len() && a[j] == x;
            if j < b.len() {
                assert(b[j] == x);
            }
        }
        if b.to_set().contains(x) {
            let j = choose|j: int| 0 <= j < b.len() && b[j] == x;
            assert(a[j] == x);
        }
        if x == s[i].0@ {
            assert(a[b.len() as int] == x);
        }
    }
    assert(entry_names(s.take(i + 1)) =~= entry_names(s.take(i)).insert(s[i].0@));
}

/// Compute the delimiter-scoped listing of the names held in `entries`.
pub fn list_keys(entries: &Vec<(String, Vec<u8>)>, prefix: &str) -> (r: ListKeyObjects)
    ensures
        r.wf(),
        r.to_set() == listing_spec(entry_names(entries@), prefix@),
{
    let n = entries.len();
    let mut r = ListKeyObjects::new();
    proof {
        assert(entry_names(entries@.take(0)) =~= Set::<Seq<char>>::empty());
        assert forall|o: Seq<char>|
            !listing_spec(Set::<Seq<char>>::empty(), prefix@).contains(o) by {
            assert(forall|k: Seq<char>| !Set::<Seq<char>>::empty().contains(k));
        }
        assert(r.to_set() =~= listing_spec(entry_names(entries@.take(0)), prefix@));
    }
    let mut i: usize = 0;
    while i < n
        invariant
            i <= n,
            n == entries@.len(),
            r.wf(),
            r.to_set() == listing_spec(entry_names(entries@.take(i as int)), prefix@),
        decreases n - i,
    {
        proof {
            lemma_entry_names_take_step(entries@, i as int);
            lemma_listing_insert(entry_names(entries@.take(i as int)), prefix@, entries@[i as int].0@);
        }
        if str_starts_with(entries[i].0.as_str(), prefix) {
            match radix_key(prefix, &entries[i].0) {
                Some(o) => {
                    r.insert(o);
                },
                None => {
                    proof {
                        assert(r.to_set() =~= listing_spec(
                            entry_names(entries@.take(i as int + 1)),
                            prefix@,
                        ));
                    }
                },
            }
        } else {
            proof {
                assert(r.to_set() =~= listing_spec(
                    entry_names(entries@.take(i as int + 1)),
                    prefix@,
                ));
            }
        }
        i += 1;
    }
    proof {
        assert(entries@.take(n as int) =~= entries@);
    }
    r
}

} // verus!
