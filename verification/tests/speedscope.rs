//! The speedscope file format.

use profcast::error::ProfcastError;
use profcast::format::{OutputFormat, WriteOptions};
use profcast::model::{Frame, FrameId, Profile, Sample, ValueKind};
use profcast::speedscope::{frame_name, SpeedscopeFormat, SCHEMA_URL};
use serde_json::Value;

fn sample_profile() -> Profile {
    Profile {
        frame_intern: vec![
            Frame {
                function: Some("main".to_owned()),
                file: Some("main.rs".to_owned()),
                line: Some(42),
                ..Frame::default()
            },
            Frame {
                function: Some("work".to_owned()),
                ..Frame::default()
            },
        ],
        samples: vec![
            Sample {
                stack: vec![FrameId(0), FrameId(1)],
                values: vec![10, 100],
            },
            Sample {
                stack: vec![FrameId(0)],
                values: vec![5, 50],
            },
        ],
        value_kinds: vec![
            ValueKind {
                kind: "samples".to_owned(),
                unit: "count".to_owned(),
            },
            ValueKind {
                kind: "cpu".to_owned(),
                unit: "nanoseconds".to_owned(),
            },
        ],
    }
}

fn write_value(profile: &Profile) -> Value {
    let bytes = SpeedscopeFormat
        .write(profile, WriteOptions::default())
        .unwrap();
    serde_json::from_slice(&bytes).unwrap()
}

#[test]
fn emits_one_profile_per_value_kind() {
    let value = write_value(&sample_profile());

    assert_eq!(value["$schema"], SCHEMA_URL);
    assert_eq!(value["exporter"], "profcast");
    assert_eq!(value["activeProfileIndex"], 0);

    let profiles = value["profiles"].as_array().unwrap();
    assert_eq!(profiles.len(), 2);
    assert_eq!(profiles[0]["type"], "sampled");
    assert_eq!(profiles[0]["name"], "samples");
    assert_eq!(profiles[1]["name"], "cpu");
}

#[test]
fn shares_one_frame_table_across_series() {
    let value = write_value(&sample_profile());
    let frames = value["shared"]["frames"].as_array().unwrap();
    assert_eq!(frames.len(), 2);
    assert_eq!(frames[0]["name"], "main");
    assert_eq!(frames[0]["file"], "main.rs");
    assert_eq!(frames[0]["line"], 42);
    // `work` has no file/line, so those keys are omitted entirely.
    assert_eq!(frames[1]["name"], "work");
    assert!(frames[1].get("file").is_none());
    assert!(frames[1].get("line").is_none());
}

#[test]
fn stacks_are_root_first_and_weights_track_series() {
    let value = write_value(&sample_profile());
    let cpu = &value["profiles"][1];

    // Stacks are identical across series; weights come from the cpu series.
    assert_eq!(cpu["samples"][0], Value::from(vec![0, 1]));
    assert_eq!(cpu["samples"][1], Value::from(vec![0]));
    assert_eq!(cpu["weights"], Value::from(vec![100, 50]));
    assert_eq!(cpu["unit"], "nanoseconds");
    // endValue is the summed weights of this series.
    assert_eq!(cpu["startValue"], 0);
    assert_eq!(cpu["endValue"], 150);
}

#[test]
fn maps_count_unit_to_none() {
    let value = write_value(&sample_profile());
    assert_eq!(value["profiles"][0]["unit"], "none");
}

#[test]
fn names_frame_from_address_when_unsymbolized() {
    let profile = Profile {
        frame_intern: vec![Frame {
            address: Some(0x7f40_6047_5e44),
            module: Some("libc.so.6".to_owned()),
            ..Frame::default()
        }],
        samples: vec![Sample {
            stack: vec![FrameId(0)],
            values: vec![1],
        }],
        value_kinds: vec![ValueKind {
            kind: "samples".to_owned(),
            unit: "count".to_owned(),
        }],
    };
    let value = write_value(&profile);
    // Module beats the bare address as a display name.
    assert_eq!(value["shared"]["frames"][0]["name"], "libc.so.6");
}

#[test]
fn empty_profile_has_no_profiles_or_frames() {
    let value = write_value(&Profile::default());
    assert_eq!(value["profiles"].as_array().unwrap().len(), 0);
    assert_eq!(value["shared"]["frames"].as_array().unwrap().len(), 0);
}

#[test]
fn speedscope_pretty_is_multiline_compact_is_not() {
    let profile = sample_profile();
    let pretty = SpeedscopeFormat
        .write(&profile, WriteOptions { pretty: true })
        .unwrap();
    let compact = SpeedscopeFormat
        .write(&profile, WriteOptions { pretty: false })
        .unwrap();
    assert!(pretty.contains(&b'\n'));
    assert!(!compact.contains(&b'\n'));
}

#[test]
fn rejects_dangling_frame_id() {
    let profile = Profile {
        frame_intern: vec![Frame::default()],
        samples: vec![Sample {
            stack: vec![FrameId(7)],
            values: vec![1],
        }],
        value_kinds: vec![ValueKind {
            kind: "samples".to_owned(),
            unit: "count".to_owned(),
        }],
    };
    let error = SpeedscopeFormat
        .write(&profile, WriteOptions::default())
        .unwrap_err();
    assert!(matches!(error, ProfcastError::InvalidProfile(_)));
}

#[test]
fn advertises_speedscope_name() {
    assert_eq!(SpeedscopeFormat.name(), "speedscope");
}

#[test]
fn frames_are_never_anonymous() {
    let mut frame = Frame {
        function: Some(String::new()),
        module: Some(String::new()),
        ..Frame::default()
    };
    assert_eq!(frame_name(&frame), "unknown");
    frame.address = Some(0x1f);
    assert_eq!(frame_name(&frame), "0x1f");
    frame.module = Some("libc".to_owned());
    assert_eq!(frame_name(&frame), "libc");
    frame.raw = "label".to_owned();
    assert_eq!(frame_name(&frame), "label");
    frame.function = Some("main".to_owned());
    assert_eq!(frame_name(&frame), "main");
}
