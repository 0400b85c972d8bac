use negentropy::s3::{handle_list_objects, parse_aggregated_bytes};
use negentropy::storage::parser::{Json, Parser};
use negentropy::storage::parser_zerocopy::Rkyv;
use negentropy::storage::radix_key;
use negentropy::storage::{MemoryError, ParserError, S3Error};
use negentropy::{Key, KeyWithParser, LiveKey};

#[test]
fn json_round_trip_plain() {
    let value = "hello".to_string();
    let bytes = Json.serialize_value(&value).unwrap();
    let back: String = Json.deserialize_value(&bytes).unwrap();
    assert_eq!(back, value);
}

#[test]
fn json_round_trip_escapes() {
    let value = "he\"llo\nworld\\".to_string();
    let bytes = Json.serialize_value(&value).unwrap();
    let back: String = Json.deserialize_value(&bytes).unwrap();
    assert_eq!(back, value);
}

#[test]
fn json_exact_encoding() {
    // The JSON encoding of a string is quoted: the payload is not the raw
    // character bytes handed in.
    let value = "hi".to_string();
    let bytes = Json.serialize_value(&value).unwrap();
    assert_eq!(bytes, b"\"hi\"".to_vec());
    assert_ne!(bytes, b"hi".to_vec());
    let back: String = Json.deserialize_value(b"\"hi\"").unwrap();
    assert_eq!(back, "hi");
}

#[test]
fn json_mime() {
    assert_eq!(Json.mime(), "application/json");
}

#[test]
fn rkyv_mime() {
    assert_eq!(Rkyv.mime(), "application/rkyv");
}

#[test]
fn json_deserialize_garbage_is_serde_error() {
    let got: Result<String, ParserError> = Json.deserialize_value(&[0xff, 0x01]);
    assert!(matches!(got, Err(ParserError::Serde { .. })));
}

#[test]
fn parser_error_message() {
    let err = ParserError::Serde { internal: "boom".to_string() };
    assert_eq!(err.message(), "Can not serde : boom");
    let mem = MemoryError::Serde(ParserError::Serde { internal: "boom".to_string() });
    assert_eq!(mem.message(), "ParseMemory: Can not serde : boom");
}

#[test]
fn live_key_names() {
    assert_eq!(LiveKey::Welcome.name(), "live/welcome");
    assert_eq!(LiveKey::Alive("ab12".to_string()).name(), "live/alive-ab12");
}

#[test]
fn key_with_parser_holds_both() {
    let pair = KeyWithParser::new(LiveKey::Welcome, Json);
    assert_eq!(pair.key().name(), "live/welcome");
    assert_eq!(pair.parser().mime(), "application/json");
}

#[test]
fn radix_key_leaf_and_rollup() {
    assert_eq!(radix_key("", &"one".to_string()), Some("one".to_string()));
    assert_eq!(radix_key("", &"long/qux".to_string()), Some("long/".to_string()));
    assert_eq!(
        radix_key("long/", &"long/verylong/buz".to_string()),
        Some("long/verylong/".to_string())
    );
    assert_eq!(radix_key("long/", &"long/qux".to_string()), Some("long/qux".to_string()));
    // A delimiter immediately after the prefix suppresses the name.
    assert_eq!(radix_key("long", &"long/qux".to_string()), None);
}

#[test]
fn radix_key_multibyte_characters() {
    assert_eq!(
        radix_key("", &"\u{65e5}\u{672c}/\u{8a9e}".to_string()),
        Some("\u{65e5}\u{672c}/".to_string())
    );
    assert_eq!(
        radix_key("\u{65e5}\u{672c}/", &"\u{65e5}\u{672c}/\u{8a9e}".to_string()),
        Some("\u{65e5}\u{672c}/\u{8a9e}".to_string())
    );
}

#[test]
fn list_handling_collapses_duplicates() {
    let contents = Some(vec![
        Some("one".to_string()),
        Some("one".to_string()),
        Some("long/".to_string()),
    ]);
    let prefixes = vec![Some("long/".to_string())];
    let got = handle_list_objects(contents, prefixes).unwrap();
    assert_eq!(got.len(), 2);
    assert!(got.contains("one"));
    assert!(got.contains("long/"));
}

#[test]
fn aggregated_bytes_parse_and_error() {
    let ok: String = parse_aggregated_bytes(&b"\"x\"".to_vec(), &Json).unwrap();
    assert_eq!(ok, "x");
    let bad: Result<String, S3Error> = parse_aggregated_bytes(&vec![0xff], &Json);
    assert!(matches!(bad, Err(S3Error::Serde(_))));
}

#[test]
fn list_handling_missing_contents_is_handle_error() {
    let got = handle_list_objects(None, vec![]);
    assert!(matches!(got, Err(S3Error::S3ListHandle)));
}

#[test]
fn list_handling_collapses_entries_and_prefixes() {
    let contents = Some(vec![
        Some("long/qux".to_string()),
        None,
        Some("one".to_string()),
    ]);
    let prefixes = vec![Some("long/verylong/".to_string()), None];
    let got = handle_list_objects(contents, prefixes).unwrap();
    assert_eq!(got.len(), 3);
    assert!(got.contains("long/qux"));
    assert!(got.contains("one"));
    assert!(got.contains("long/verylong/"));
}
