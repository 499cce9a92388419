//! What stands behind the C interface.

use profcast::capi::{c_message, detect, profile_to_json, read_buffer, read_failure_message};
use profcast::registry::Registry;

#[test]
fn version_is_correct() {
    assert_eq!(profcast::VERSION_STRING, format!("{} {}", profcast::NAME, profcast::VERSION));
    assert_eq!(profcast::VERSION_STRING, "profcast 0.1.0");
}

#[test]
fn probe_detects_folded() {
    let name = detect(&Registry::with_builtins(), None, b"a;b;c 10\n");
    assert!(name.is_some());
    assert_eq!(name, Some("folded"));
}

#[test]
fn read_and_serialize_roundtrip() {
    let registry = Registry::with_builtins();
    let profile = read_buffer(&registry, b"main;work 5\n", None, None);
    assert!(profile.is_ok());
    let json = profile_to_json(&profile.unwrap());
    assert!(json.is_ok());
    let text = String::from_utf8(json.unwrap()).unwrap();
    assert!(text.contains("\"raw\":\"main\""));
    assert!(text.contains("\"raw\":\"work\""));
}

#[test]
fn read_unknown_format_sets_error() {
    let profile = read_buffer(&Registry::with_builtins(), &[], Some("nope"), None);
    assert!(profile.is_err());
    let err = read_failure_message(&profile.unwrap_err());
    assert!(err.contains("nope"));
}

#[test]
fn nothing_detected_is_told() {
    let registry = Registry::with_builtins();
    assert_eq!(detect(&registry, None, b""), None);
    let failure = read_buffer(&registry, b"", None, None).unwrap_err();
    assert_eq!(read_failure_message(&failure), "could not detect input format");
}

#[test]
fn read_errors_keep_their_text() {
    let registry = Registry::with_builtins();
    let failure = read_buffer(&registry, b"a;b;c\n", Some("folded"), None).unwrap_err();
    assert!(read_failure_message(&failure).starts_with("parse error on line 1: "));
    let failure = read_buffer(&registry, &[0xff], Some("folded"), None).unwrap_err();
    assert!(read_failure_message(&failure).starts_with("invalid UTF-8: "));
    let failure = read_buffer(&registry, b"{", Some("chrometrace"), None).unwrap_err();
    assert!(read_failure_message(&failure).starts_with("JSON error: "));
}

#[test]
fn messages_survive_as_c_strings() {
    assert_eq!(c_message(b"a\0b\0".to_vec()), b"a?b?".to_vec());
    assert_eq!(c_message(b"plain".to_vec()), b"plain".to_vec());
}
