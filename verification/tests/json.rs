//! The JSON dump of the model.

use profcast::format::{OutputFormat, WriteOptions};
use profcast::json::parse_json;
use profcast::json_format::{read_value, JsonFormat};
use profcast::model::{Frame, FrameId, Profile, Sample, ValueKind};

fn sample_profile() -> Profile {
    Profile {
        frame_intern: vec![Frame {
            raw: "main".to_owned(),
            ..Frame::default()
        }],
        samples: vec![Sample {
            stack: vec![FrameId(0)],
            values: vec![1],
        }],
        value_kinds: vec![ValueKind {
            kind: "samples".to_owned(),
            unit: "count".to_owned(),
        }],
    }
}

#[test]
fn round_trips_through_json() {
    let profile = sample_profile();
    let bytes = JsonFormat.write(&profile, WriteOptions::default()).unwrap();
    let decoded = read_value(&parse_json(&bytes).unwrap()).unwrap();
    assert_eq!(profile, decoded);
}

#[test]
fn json_pretty_is_multiline_compact_is_not() {
    let profile = sample_profile();
    let pretty = JsonFormat
        .write(&profile, WriteOptions { pretty: true })
        .unwrap();
    let compact = JsonFormat
        .write(&profile, WriteOptions { pretty: false })
        .unwrap();
    assert!(pretty.contains(&b'\n'));
    assert!(!compact.contains(&b'\n'));
}

#[test]
fn advertises_json_extension() {
    assert_eq!(JsonFormat.name(), "json");
    assert_eq!(JsonFormat.extensions(), &["json"]);
}
