use negentropy::storage::direct::DKeyWithParserCopy;
use negentropy::storage::memory::Memory;
use negentropy::storage::parser::Json;
use negentropy::storage::Sink;

fn key(name: &str) -> String {
    name.to_string()
}

#[test]
fn memory_empty() {
    let memory = Memory::default();
    assert_eq!(memory.len(), 0);
}

#[test]
fn memory_empty_bytes() {
    let mut memory = Memory::default();
    assert_eq!(memory.len(), 0);
    memory
        .put_bytes_copy(&key("one"), String::new(), vec![])
        .unwrap();
    assert_eq!(memory.len(), 1);
    assert_eq!(memory.get_bytes(&key("one")).unwrap(), &Vec::<u8>::new());
}

#[test]
fn memory_bytes() {
    let mut memory = Memory::default();
    assert_eq!(memory.len(), 0);
    memory
        .put_bytes_copy(&key("one"), String::new(), vec![42, 0, 9])
        .unwrap();
    assert_eq!(memory.len(), 1);
    assert_eq!(memory.get_bytes(&key("one")).unwrap(), &vec![42, 0, 9]);
}

#[test]
fn memory_list_root() {
    let mut memory = Memory::default();
    assert_eq!(memory.len(), 0);
    let empty = memory.list_objects_copy("").unwrap();
    assert!(empty.is_empty());

    memory
        .put_bytes_copy(&key("one"), String::new(), vec![])
        .unwrap();

    let only_one = memory.list_objects_copy("").unwrap();
    assert_eq!(only_one.len(), 1, "must have only `one`");
    assert!(only_one.contains("one"), "must have only `one`");

    memory
        .put_bytes_copy(&key("long/qux"), String::new(), vec![])
        .unwrap();

    let with_long = memory.list_objects_copy("").unwrap();
    assert_eq!(with_long.len(), 2, "`long/qux` must be split to `long/`");
    assert!(with_long.contains("one"));
    assert!(with_long.contains("long/"), "`long/qux` must be split to `long/`");

    memory
        .put_bytes_copy(&key("long/baz"), String::new(), vec![])
        .unwrap();
    memory
        .put_bytes_copy(&key("long/verylong/buz"), String::new(), vec![])
        .unwrap();

    let still_two = memory.list_objects_copy("").unwrap();
    assert_eq!(still_two.len(), 2);
    assert!(still_two.contains("one"));
    assert!(still_two.contains("long/"));
}

#[test]
fn memory_list_with_prefix() {
    let mut memory = Memory::default();
    assert_eq!(memory.len(), 0);
    assert!(memory.list_objects_copy("long").unwrap().is_empty());

    memory
        .put_bytes_copy(&key("one"), String::new(), vec![])
        .unwrap();

    assert!(memory.list_objects_copy("long").unwrap().is_empty());
    assert!(memory.list_objects_copy("long/").unwrap().is_empty());

    memory
        .put_bytes_copy(&key("long/qux"), String::new(), vec![])
        .unwrap();

    assert!(memory.list_objects_copy("long").unwrap().is_empty());
    let qux = memory.list_objects_copy("long/").unwrap();
    assert_eq!(qux.len(), 1);
    assert!(qux.contains("long/qux"));

    memory
        .put_bytes_copy(&key("long/baz"), String::new(), vec![])
        .unwrap();
    memory
        .put_bytes_copy(&key("long/verylong/buz"), String::new(), vec![])
        .unwrap();

    let level_down = memory.list_objects_copy("long/").unwrap();
    assert_eq!(level_down.len(), 3);
    assert!(level_down.contains("long/baz"));
    assert!(level_down.contains("long/qux"));
    assert!(level_down.contains("long/verylong/"));

    let deeper = memory.list_objects_copy("long/verylong/").unwrap();
    assert_eq!(deeper.len(), 1);
    assert!(deeper.contains("long/verylong/buz"));
}

#[test]
fn memory_absent_key_is_none() {
    let memory = Memory::default();
    let name = key("never/written");
    let kwp = DKeyWithParserCopy::new(&name, &Json);
    let got: Option<String> = memory.get_object_copy(&kwp).unwrap();
    assert!(got.is_none());
}

#[test]
fn memory_typed_round_trip() {
    let mut memory = Memory::default();
    let name = key("greeting");
    let kwp = DKeyWithParserCopy::new(&name, &Json);
    memory
        .put_object_copy(&kwp, &"hello".to_string())
        .unwrap();
    let got: Option<String> = memory.get_object_copy(&kwp).unwrap();
    assert_eq!(got, Some("hello".to_string()));
}

#[test]
fn memory_get_object_bad_payload_is_serde_error() {
    let mut memory = Memory::default();
    let name = key("broken");
    memory
        .put_bytes_copy(&name, String::new(), vec![0xff, 0x00])
        .unwrap();
    let kwp = DKeyWithParserCopy::new(&name, &Json);
    let got: Result<Option<String>, _> = memory.get_object_copy(&kwp);
    assert!(matches!(
        got,
        Err(negentropy::storage::LruError::Memory(
            negentropy::storage::MemoryError::Serde(_)
        ))
    ));
}

#[test]
fn memory_write_once() {
    let mut memory = Memory::default();
    let name = key("bootstrap");
    let kwp = DKeyWithParserCopy::new(&name, &Json);
    let first = negentropy::storage::put_object_if_not_exists_copy(
        &mut memory,
        &kwp,
        &"v1".to_string(),
    )
    .unwrap();
    assert!(first);
    let second = negentropy::storage::put_object_if_not_exists_copy(
        &mut memory,
        &kwp,
        &"v2".to_string(),
    )
    .unwrap();
    assert!(!second);
    let got: Option<String> = memory.get_object_copy(&kwp).unwrap();
    assert_eq!(got, Some("v1".to_string()));
}
