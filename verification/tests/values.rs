//! Exact values: numbers and text, errors, wire encoding, orders.

use profcast::chrometrace::ChromeTraceFormat;
use profcast::error::ProfcastError;
use profcast::folded::FoldedFormat;
use profcast::format::{Confidence, InputFormat, OutputFormat, ProbeData, WriteOptions};
use profcast::json::parse_json;
use profcast::json_format::{read_value, JsonFormat};
use profcast::listing::{caps_of, format_names, precedes, FormatCaps};
use profcast::model::{Frame, FrameId, Profile, Sample, ValueKind};
use profcast::number::{
    add_saturating, parse_i64, parse_unsigned, push_decimal, push_hexadecimal, push_i64,
};
use profcast::order::in_text_order;
use profcast::path::extension_of;
use profcast::pprof::{convert_to_proto, decode_payload, PprofFormat};
use profcast::proto;
use profcast::registry::Registry;
use profcast::sorting::stable_order;

fn chars(text: &str) -> Vec<char> {
    text.chars().collect()
}

#[test]
fn numbers_are_printed() {
    let mut out = String::new();
    push_decimal(&mut out, u64::MAX);
    out.push(' ');
    push_hexadecimal(&mut out, 0x7f40_6047_5e44);
    out.push(' ');
    push_i64(&mut out, i64::MIN);
    out.push(' ');
    push_decimal(&mut out, 0);
    assert_eq!(out, "18446744073709551615 7f4060475e44 -9223372036854775808 0");
}

#[test]
fn numbers_are_read_within_their_range() {
    assert_eq!(parse_i64(&chars("-9223372036854775808")), Some(i64::MIN));
    assert_eq!(parse_i64(&chars("9223372036854775808")), None);
    assert_eq!(parse_i64(&chars("+7")), Some(7));
    assert_eq!(parse_i64(&chars("")), None);
    assert_eq!(parse_i64(&chars("-")), None);
    assert_eq!(parse_i64(&chars("1x")), None);
    assert_eq!(parse_unsigned(&chars("fF"), true, 255), Some(255));
    assert_eq!(parse_unsigned(&chars("100"), true, 255), None);
    assert_eq!(parse_unsigned(&chars("-1"), false, 255), None);
    assert_eq!(add_saturating(i64::MAX, 1), i64::MAX);
    assert_eq!(add_saturating(i64::MIN, -1), i64::MIN);
    assert_eq!(add_saturating(2, 3), 5);
}

#[test]
fn numbers_are_ordered_by_their_text() {
    assert_eq!(in_text_order(13), vec![0, 1, 10, 11, 12, 2, 3, 4, 5, 6, 7, 8, 9]);
    assert_eq!(in_text_order(0), Vec::<u64>::new());
    let mut texts: Vec<String> = (0..1234_u64).map(|n| n.to_string()).collect();
    texts.sort();
    let ordered: Vec<String> = in_text_order(1234).iter().map(|n| n.to_string()).collect();
    assert_eq!(ordered, texts);
}

#[test]
fn equal_keys_keep_their_order() {
    assert_eq!(stable_order(&vec![3, 1, 3, 2, 1]), vec![1, 4, 3, 0, 2]);
    assert_eq!(stable_order(&vec![]), Vec::<usize>::new());
}

#[test]
fn extensions_follow_the_last_dot() {
    assert_eq!(extension_of("a/b.tar.gz").as_deref(), Some("gz"));
    assert_eq!(extension_of("a.b/").as_deref(), Some("b"));
    assert_eq!(extension_of("..").as_deref(), None);
    assert_eq!(extension_of("a.").as_deref(), Some(""));
    assert_eq!(extension_of(".hidden").as_deref(), None);
    assert_eq!(extension_of("").as_deref(), None);
}

#[test]
fn texts_compare_by_character() {
    assert!(precedes("abc", "abd"));
    assert!(precedes("ab", "abc"));
    assert!(!precedes("abc", "abc"));
    assert!(!precedes("b", "abc"));
    assert!(precedes("", "a"));
}

#[test]
fn capabilities_are_merged_by_name() {
    let registry = Registry::with_builtins();
    let caps = caps_of(&registry, "pprof");
    assert!(caps.readable && caps.writable);
    assert_eq!(caps.extensions, vec!["pprof", "pb", "gz"]);
    let none = caps_of(&registry, "nope");
    assert!(!none.readable && !none.writable && none.extensions.is_empty());
    assert_eq!(
        format_names(&registry),
        vec!["chrometrace", "folded", "json", "pprof", "speedscope"],
    );
    let mut caps = FormatCaps::default();
    caps.add_extensions(&["a", "b", "a"]);
    caps.add_extensions(&["b", "c"]);
    assert_eq!(caps.extensions, vec!["a", "b", "c"]);
}

#[test]
fn registered_outputs_are_used() {
    let mut registry = Registry::new();
    registry.register_output(Box::new(JsonFormat));
    assert_eq!(registry.outputs().len(), 1);
    let format = registry.output_by_name("json").unwrap();
    assert_eq!(format.extensions(), &["json"]);
    let bytes = format.write(&Profile::default(), WriteOptions::default()).unwrap();
    assert_eq!(bytes, b"{\"frame_intern\":[],\"samples\":[],\"value_kinds\":[]}".to_vec());
    assert!(registry.output_by_extension("json").is_some());
}

#[test]
fn shipped_formats_report_their_names() {
    let registry = Registry::with_builtins();
    let inputs: Vec<&str> = registry.formats().iter().map(|format| format.name()).collect();
    assert_eq!(inputs, ["folded", "pprof", "chrometrace"]);
    let outputs: Vec<&str> = registry.outputs().iter().map(|format| format.name()).collect();
    assert_eq!(outputs, ["folded", "pprof", "json", "speedscope", "chrometrace"]);
    for name in inputs {
        assert_eq!(registry.by_name(name).unwrap().name(), name);
    }
}

#[test]
fn chrome_traces_are_detected() {
    let registry = Registry::with_builtins();
    let trace = b"{\"stackFrames\": {\"1\": {\"name\": \"f\"}}, \"samples\": [{\"sf\": 1}]}";
    let found = registry.probe(&ProbeData { filename: None, buf: trace }).unwrap();
    assert_eq!(found.format.name(), "chrometrace");
    assert_eq!(found.confidence, Confidence::Likely);
}

#[test]
fn errors_say_what_went_wrong() {
    let io = PprofFormat.read(&[0x1f, 0x8b, 0, 0]).unwrap_err();
    assert!(matches!(io, ProfcastError::Io(_)));
    assert!(io.message().starts_with("I/O error: "));
    let json = ChromeTraceFormat.read(b"{").unwrap_err();
    assert!(matches!(json, ProfcastError::Json(_)));
    assert!(json.message().starts_with("JSON error: "));
    let utf8 = FoldedFormat.read(&[0xff]).unwrap_err();
    assert!(utf8.message().starts_with("invalid UTF-8: "));
    let parse = FoldedFormat.read(b"a;b;c\n").unwrap_err();
    assert!(parse.message().starts_with("parse error on line 1: "));
    let decode = PprofFormat.read(&[0x0a]).unwrap_err();
    assert_eq!(
        decode.message(),
        "decode error: invalid pprof protobuf: failed to decode Protobuf message: Profile.sample_type: \
         invalid varint",
    );
    let invalid = Profile {
        frame_intern: vec![Frame::default()],
        samples: vec![Sample { stack: vec![FrameId(0)], values: vec![1, 2] }],
        value_kinds: vec![],
    };
    assert_eq!(
        invalid.validate().unwrap_err().message(),
        "invalid profile: sample 0 has 2 values but the profile declares 0 value kinds",
    );
    assert_eq!(ProfcastError::Capture("x".to_owned()).message(), "capture error: x");
    assert_eq!(ProfcastError::Unsupported("x".to_owned()).message(), "unsupported: x");
}

fn one_sample() -> Profile {
    Profile {
        frame_intern: vec![Frame { function: Some("f".to_owned()), ..Frame::default() }],
        samples: vec![Sample { stack: vec![FrameId(0)], values: vec![300] }],
        value_kinds: vec![ValueKind { kind: "k".to_owned(), unit: "u".to_owned() }],
    }
}

#[test]
fn profiles_have_exact_protobuf_bytes() {
    let bytes = convert_to_proto(&one_sample()).encode_to_vec();
    let expected: Vec<u8> = vec![
        0x0a, 4, 0x08, 1, 0x10, 2, // sample_type: k, u
        0x12, 7, 0x0a, 1, 1, 0x12, 2, 0xac, 2, // sample: location 1, value 300
        0x22, 6, 0x08, 1, 0x22, 2, 0x08, 1, // location 1: line of function 1
        0x2a, 4, 0x08, 1, 0x10, 3, // function 1: f
        0x32, 0, 0x32, 1, b'k', 0x32, 1, b'u', 0x32, 1, b'f',
    ];
    assert_eq!(bytes, expected);
    assert_eq!(decode_payload(&expected).unwrap(), expected);
    assert_eq!(proto::Profile::decode(&expected).unwrap().encode_to_vec(), expected);
}

#[test]
fn damaged_messages_are_not_decoded() {
    assert!(proto::Profile::decode(&[0x0a, 5, 0x08]).is_none());
    assert!(proto::Profile::decode(&[0x00]).is_none());
    assert!(proto::Profile::decode(&[0x32, 1, 0xff]).is_none());
    // Fields that nobody knows are skipped.
    let unknown = [0xf8, 0x07, 1, 0xfd, 0x07, 1, 2, 3, 4, 0x32, 0];
    assert_eq!(proto::Profile::decode(&unknown).unwrap().string_table, vec![String::new()]);
}

#[test]
fn compression_round_trips() {
    let bytes = PprofFormat.write(&one_sample(), WriteOptions::default()).unwrap();
    let raw = decode_payload(&bytes).unwrap();
    assert_eq!(raw, convert_to_proto(&one_sample()).encode_to_vec());
    assert_ne!(raw, bytes);
}

#[test]
fn folded_lines_keep_their_text() {
    for input in ["a 1\n", "a;b 0\nc;a 18\n", "x (y.py:1);z 2\n"] {
        let profile = FoldedFormat.read(input.as_bytes()).unwrap();
        let bytes = FoldedFormat.write(&profile, WriteOptions { pretty: true }).unwrap();
        assert_eq!(String::from_utf8(bytes).unwrap(), input);
    }
    // A first label that starts like a comment is read as one.
    let profile = FoldedFormat.read(b";#a 1\n").unwrap();
    let bytes = FoldedFormat.write(&profile, WriteOptions::default()).unwrap();
    assert_eq!(bytes, b"#a 1\n".to_vec());
    assert!(FoldedFormat.read(&bytes).unwrap().samples.is_empty());
}

#[test]
fn json_reads_back_what_it_wrote() {
    let profile = one_sample();
    for pretty in [false, true] {
        let bytes = JsonFormat.write(&profile, WriteOptions { pretty }).unwrap();
        assert_eq!(read_value(&parse_json(&bytes).unwrap()).unwrap(), profile);
    }
    assert!(read_value(&parse_json(b"[]").unwrap()).is_none());
    assert!(read_value(&parse_json(b"{\"samples\": []}").unwrap()).is_none());
    assert!(matches!(parse_json(b"{"), Err(ProfcastError::Json(_))));
}

#[test]
fn outside_errors_keep_their_text() {
    let io = std::io::Error::new(std::io::ErrorKind::Other, "disk is gone");
    assert_eq!(ProfcastError::from(io).message(), "I/O error: disk is gone");
    let json = serde_json::from_slice::<serde_json::Value>(b"{").unwrap_err();
    let text = json.to_string();
    assert_eq!(ProfcastError::from(json).message(), format!("JSON error: {text}"));
    let utf8 = String::from_utf8(vec![0xff]).unwrap_err().utf8_error();
    let text = utf8.to_string();
    assert_eq!(ProfcastError::from(utf8).message(), format!("invalid UTF-8: {text}"));
}
