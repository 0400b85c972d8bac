use negentropy::storage::cache::lru::Lru;
use negentropy::storage::direct::DKeyWithParserCopy;
use negentropy::storage::memory::Memory;
use negentropy::storage::parser::Json;
use negentropy::storage::LruError;
use negentropy::storage::Sink;

fn key(name: &str) -> String {
    name.to_string()
}

#[test]
fn cache_write_once_true_then_false() {
    let mut lru = Lru::new(10, Memory::default());
    let name = key("live/welcome");
    let kwp = DKeyWithParserCopy::new(&name, &Json);
    let first = lru
        .put_object_if_not_exists_copy(&kwp, &"welcome".to_string())
        .unwrap();
    assert!(first);
    let second = lru
        .put_object_if_not_exists_copy(&kwp, &"welcome".to_string())
        .unwrap();
    assert!(!second);
}

#[test]
fn cache_read_after_write_ignores_backend() {
    let mut lru = Lru::new(10, Memory::default());
    let name = key("config/main");
    let kwp = DKeyWithParserCopy::new(&name, &Json);
    lru.put_object_copy(&kwp, &"fresh".to_string()).unwrap();

    // Overwrite the backend behind the cache's back: a read must still be
    // served from the cache, without consulting the backend.
    lru.storage
        .put_bytes_copy(&name, String::new(), vec![1, 2, 3])
        .unwrap();

    let got: Option<String> = lru.get_object_copy(&kwp).unwrap();
    assert_eq!(got, Some("fresh".to_string()));
}

#[test]
fn cache_eviction_healing() {
    // Capacity 1: the second write evicts the first entry's payload.
    let mut lru = Lru::new(1, Memory::default());
    let first_name = key("a");
    let second_name = key("b");
    let first = DKeyWithParserCopy::new(&first_name, &Json);
    let second = DKeyWithParserCopy::new(&second_name, &Json);
    lru.put_object_copy(&first, &"alpha".to_string()).unwrap();
    lru.put_object_copy(&second, &"beta".to_string()).unwrap();

    // `a` is gone from the byte cache, but the backend still holds it.
    let healed: Option<String> = lru.get_object_copy(&first).unwrap();
    assert_eq!(healed, Some("alpha".to_string()));

    // And the heal repopulated the cache: a backend overwrite is not seen.
    lru.storage
        .put_bytes_copy(&first_name, String::new(), vec![9])
        .unwrap();
    let cached: Option<String> = lru.get_object_copy(&first).unwrap();
    assert_eq!(cached, Some("alpha".to_string()));
}

#[test]
fn cache_absent_key_is_none_not_error() {
    let mut lru = Lru::new(4, Memory::default());
    let name = key("never/written");
    let kwp = DKeyWithParserCopy::new(&name, &Json);
    let got: Option<String> = lru.get_object_copy(&kwp).unwrap();
    assert!(got.is_none());
}

#[test]
fn cache_exists_is_local() {
    let mut lru = Lru::new(4, Memory::default());
    let name = key("seen");
    let kwp = DKeyWithParserCopy::new(&name, &Json);
    assert!(!lru.exists_copy(&kwp).unwrap());
    lru.put_object_copy(&kwp, &"x".to_string()).unwrap();
    assert!(lru.exists_copy(&kwp).unwrap());

    // A write that only reached the backend is not yet known locally.
    let other = key("unseen");
    lru.storage
        .put_bytes_copy(&other, String::new(), vec![1])
        .unwrap();
    let other_kwp = DKeyWithParserCopy::new(&other, &Json);
    assert!(!lru.exists_copy(&other_kwp).unwrap());
}

#[test]
fn cache_read_through_marks_existence() {
    let mut lru = Lru::new(4, Memory::default());
    let name = key("elsewhere");
    let kwp = DKeyWithParserCopy::new(&name, &Json);
    // Written directly to the backend, unknown to the cache.
    lru.storage
        .put_object_copy(&kwp, &"remote".to_string())
        .unwrap();
    assert!(!lru.exists_copy(&kwp).unwrap());
    let got: Option<String> = lru.get_object_copy(&kwp).unwrap();
    assert_eq!(got, Some("remote".to_string()));
    assert!(lru.exists_copy(&kwp).unwrap());
}

#[test]
fn cache_listing_is_cache_scoped() {
    let mut lru = Lru::new(10, Memory::default());
    for name in ["one", "long/qux", "long/baz", "long/verylong/buz"] {
        let owned = key(name);
        let kwp = DKeyWithParserCopy::new(&owned, &Json);
        lru.put_object_copy(&kwp, &name.to_string()).unwrap();
    }
    let root = lru.list_objects_copy("").unwrap();
    assert_eq!(root.len(), 2);
    assert!(root.contains("one"));
    assert!(root.contains("long/"));

    let down = lru.list_objects_copy("long/").unwrap();
    assert_eq!(down.len(), 3);
    assert!(down.contains("long/qux"));
    assert!(down.contains("long/baz"));
    assert!(down.contains("long/verylong/"));

    let deeper = lru.list_objects_copy("long/verylong/").unwrap();
    assert_eq!(deeper.len(), 1);
    assert!(deeper.contains("long/verylong/buz"));

    assert!(lru.list_objects_copy("long").unwrap().is_empty());
}

#[test]
fn cache_bad_cached_payload_is_parser_error() {
    let mut lru = Lru::new(4, Memory::default());
    let name = key("broken");
    lru.put_bytes_copy(&name, String::new(), vec![0xff]).unwrap();
    let kwp = DKeyWithParserCopy::new(&name, &Json);
    let got: Result<Option<String>, LruError> = lru.get_object_copy(&kwp);
    assert!(matches!(got, Err(LruError::Parser(_))));
}

#[test]
fn cache_get_bytes_is_cache_only() {
    let mut lru = Lru::new(1, Memory::default());
    let a = key("a");
    let b = key("b");
    lru.put_bytes_copy(&a, String::new(), vec![1]).unwrap();
    lru.put_bytes_copy(&b, String::new(), vec![2]).unwrap();
    // `a` was evicted: the byte-level read is cache-scoped and sees nothing.
    assert_eq!(lru.get_bytes_copy(&a).unwrap(), None);
    assert_eq!(lru.get_bytes_copy(&b).unwrap(), Some(vec![2]));
}
