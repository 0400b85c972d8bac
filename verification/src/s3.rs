//! The decision logic of the remote object-store backend. The transport —
//! client construction, requests, responses — is an external collaborator;
//! what it hands back arrives here as plain values, and these functions
//! turn it into the core's results and errors.

use vstd::prelude::*;

use crate::storage::parser::Parser;
use crate::storage::ListKeyObjects;
use crate::storage::S3Error;

verus! {

/// The names present in a listing response fragment: every entry that
/// actually carries a name.
pub open spec fn some_names(s: Seq<Option<String>>) -> Set<Seq<char>> {
    Set::new(
        |x: Seq<char>|
            exists|i: int| 0 <= i < s.len() && (#[trigger] s[i]) is Some && s[i]->0@ == x,
    )
}

proof fn lemma_some_names_step(s: Seq<Option<String>>, i: int)
    requires
        0 <= i < s.len(),
    ensures
        some_names(s.take(i + 1)) == if s[i] is Some {
            some_names(s.take(i)).insert(s[i]->0@)
        } else {
            some_names(s.take(i))
        },
{
    let a = s.take(i + 1);
    let b = s.take(i);
    assert(a =~= b.push(s[i]));
    assert forall|x: Seq<char>|
        some_names(a).contains(x) <==> (some_names(b).contains(x) || (s[i] is Some && s[i]->0@
            == x)) by {
        if some_names(a).contains(x) {
            let j = choose|j: int| 0 <= j < a.len() && (#[trigger] a[j]) is Some && a[j]->0@ == x;
            if j < b.len() {
                assert(b[j] is Some && b[j]->0@ == x);
            }
        }
        if some_names(b).contains(x) {
            let j = choose|j: int| 0 <= j < b.len() && (#[trigger] b[j]) is Some && b[j]->0@ == x;
            assert(a[j] is Some && a[j]->0@ == x);
        }
        if s[i] is Some && s[i]->0@ == x {
            assert(a[i] is Some && a[i]->0@ == x);
        }
    }
    if s[i] is Some {
        assert(some_names(a) =~= some_names(b).insert(s[i]->0@));
    } else {
        assert(some_names(a) =~= some_names(b));
    }
}

/// Collapse a listing response to one flat set of names: the object
/// entries and the common-prefix rollups together. A response without its
/// object list is malformed and reported as such, distinct from a
/// transport failure.
pub fn handle_list_objects(
    contents: Option<Vec<Option<String>>>,
    common_prefixes: Vec<Option<String>>,
) -> (r: Result<ListKeyObjects, S3Error>)
    ensures
        contents is None ==> (r matches Err(e) && e is S3ListHandle),
        contents matches Some(c) ==> (r matches Ok(l) && l.wf() && l.to_set() == some_names(
            c@,
        ).union(some_names(common_prefixes@))),
{
    match contents {
        None => Err(S3Error::S3ListHandle),
        Some(objects) => {
            let mut r = ListKeyObjects::new();
            proof {
                assert(objects@.take(0) =~= Seq::<Option<String>>::empty());
                assert(r.to_set() =~= some_names(objects@.take(0)));
            }
            let n = objects.len();
            let mut i: usize = 0;
            while i < n
                invariant
                    i <= n,
                    n == objects@.len(),
                    r.wf(),
                    r.to_set() == some_names(objects@.take(i as int)),
                decreases n - i,
            {
                proof {
                    lemma_some_names_step(objects@, i as int);
                }
                match &objects[i] {
                    Some(name) => {
                        r.insert(name.clone());
                    },
                    None => {},
                }
                i += 1;
            }
            proof {
                assert(objects@.take(n as int) =~= objects@);
                assert(common_prefixes@.take(0) =~= Seq::<Option<String>>::empty());
                assert(r.to_set() =~= some_names(objects@).union(
                    some_names(common_prefixes@.take(0)),
                ));
            }
            let m = common_prefixes.len();
            let mut j: usize = 0;
            while j < m
                invariant
                    j <= m,
                    m == common_prefixes@.len(),
                    r.wf(),
                    r.to_set() == some_names(objects@).union(
                        some_names(common_prefixes@.take(j as int)),
                    ),
                decreases m - j,
            {
                proof {
                    lemma_some_names_step(common_prefixes@, j as int);
                }
                match &common_prefixes[j] {
                    Some(name) => {
                        r.insert(name.clone());
                        proof {
                            assert(r.to_set() =~= some_names(objects@).union(
                                some_names(common_prefixes@.take(j as int + 1)),
                            ));
                        }
                    },
                    None => {
                        proof {
                            assert(r.to_set() =~= some_names(objects@).union(
                                some_names(common_prefixes@.take(j as int + 1)),
                            ));
                        }
                    },
                }
                j += 1;
            }
            proof {
                assert(common_prefixes@.take(m as int) =~= common_prefixes@);
            }
            Ok(r)
        },
    }
}

/// Deserialize the bytes an object read handed back; a decoding failure
/// is a serialization error, never a partial result.
pub fn parse_aggregated_bytes<VALUE: View, PARSER: Parser<VALUE>>(
    content: &Vec<u8>,
    parser: &PARSER,
) -> (r: Result<VALUE, S3Error>)
    ensures
        forall|v: VALUE|
            parser.spec_encode(&v) == Some(content@) ==> (r matches Ok(w) && w@ == v@),
        r matches Err(e) ==> e is Serde,
{
    match parser.deserialize_value(content.as_slice()) {
        Ok(w) => Ok(w),
        Err(err) => Err(S3Error::Serde(err)),
    }
}

} // verus!
